//! The order book: two price-ordered collections of limits (one per side),
//! a global order-identity index for direct cancellation, and per-side
//! aggregate volume counters.

use vstd::prelude::*;

use crate::limit::all_side;
use crate::limit::all_sized;
use crate::limit::contains_id;
use crate::limit::find_order;
use crate::limit::insert_by_arrival;
use crate::limit::lemma_skip_step;
use crate::limit::lemma_sum_nonneg;
use crate::limit::lemma_fill_props;
use crate::limit::match_removes;
use crate::limit::remove_order_seq;
use crate::limit::resident_of;
use crate::limit::taker_of;
use crate::limit::spec_fill;
use crate::limit::sum_sizes;
use crate::limit::Limit;
use crate::limit::LimitModel;
use crate::order::spec_opposite;
use crate::order::Order;
use crate::order::Side;

verus! {

/// An error surfaced by a book operation.
///
/// `OrderNotFound` and `NotEnoughVolume` are recoverable caller-facing
/// conditions; `LimitNotFound` and `InconsistentState` signal that the index
/// and the book structure diverged, which a well-formed book never exhibits.
#[derive(Debug, Clone, Copy, PartialEq, Eq, Structural)]
pub enum OrderBookError {
    InconsistentState,
    LimitNotFound(u64),
    OrderNotFound(u128),
    NotEnoughVolume { side: Side, expected_volume: u64, actual_volume: u64 },
}

/// An immutable record of one trade leg produced during matching: snapshots
/// of the two orders involved (taken after the fill is applied), the quantity
/// transferred, and the execution price, which is always the resting order's
/// limit price.
#[derive(Debug, Clone, Copy)]
pub struct Match {
    pub ask: Order,
    pub bid: Order,
    pub size_filled: u64,
    pub price: u64,
}

impl Match {
    /// The resting (maker) order's snapshot in this leg, given the side of
    /// the aggressor that produced it.
    pub fn maker(&self, taker_side: Side) -> (r: Order)
        ensures
            r == resident_of(*self, taker_side),
    {
        match taker_side {
            Side::Bid => self.ask,
            Side::Ask => self.bid,
        }
    }
}

/// One entry of the global order index: where the order with this id rests.
#[derive(Debug, Clone, Copy, PartialEq, Eq, Structural)]
pub struct OrderLocation {
    pub id: u128,
    pub side: Side,
    pub price: u64,
}

/// The models of a side's price levels, best price first.
pub open spec fn models_of(ls: Seq<Limit>) -> Seq<LimitModel> {
    Seq::new(ls.len(), |i: int| ls[i]@)
}

/// Strict "better price first" order for one side: ascending prices for
/// asks, descending for bids.
pub open spec fn price_before(side: Side, a: u64, b: u64) -> bool {
    match side {
        Side::Ask => a < b,
        Side::Bid => a > b,
    }
}

/// The total resident volume over a sequence of levels.
pub open spec fn levels_volume(ls: Seq<LimitModel>) -> int
    decreases ls.len(),
{
    if ls.len() == 0 {
        0
    } else {
        sum_sizes(ls[0].orders) + levels_volume(ls.drop_first())
    }
}

/// Well-formedness of one side: every level is a well-formed, non-empty
/// price level whose orders all lie on this side, and the levels are in
/// strict best-price-first order.
pub open spec fn side_wf(ls: Seq<LimitModel>, side: Side) -> bool {
    &&& forall|i: int| 0 <= i < ls.len() ==> (#[trigger] ls[i]).wf()
    &&& forall|i: int| 0 <= i < ls.len() ==> (#[trigger] ls[i]).orders.len() > 0
    &&& forall|i: int| 0 <= i < ls.len() ==> all_side((#[trigger] ls[i]).orders, side)
    &&& forall|i: int, j: int|
        0 <= i < j < ls.len() ==> price_before(
            side,
            (#[trigger] ls[i]).price,
            (#[trigger] ls[j]).price,
        )
}

/// No order id occurs in two different levels of the side.
pub open spec fn side_ids_unique(ls: Seq<LimitModel>) -> bool {
    forall|i: int, j: int, id: u128|
        0 <= i < j < ls.len() && #[trigger] contains_id(ls[i].orders, id) ==> !#[trigger]
        contains_id(ls[j].orders, id)
}

/// The order with this id rests at this price on the side.
pub open spec fn side_locates(ls: Seq<LimitModel>, id: u128, price: u64) -> bool {
    exists|i: int|
        0 <= i < ls.len() && (#[trigger] ls[i]).price == price && contains_id(ls[i].orders, id)
}

/// The order with this id rests somewhere on the side.
pub open spec fn side_contains(ls: Seq<LimitModel>, id: u128) -> bool {
    exists|i: int| 0 <= i < ls.len() && contains_id((#[trigger] ls[i]).orders, id)
}

/// The side has a level at exactly this price.
pub open spec fn side_has_price(ls: Seq<LimitModel>, price: u64) -> bool {
    exists|i: int| 0 <= i < ls.len() && (#[trigger] ls[i]).price == price
}

/// The first index entry for the given id, if any.
pub open spec fn idx_find(s: Seq<OrderLocation>, id: u128) -> Option<OrderLocation>
    decreases s.len(),
{
    if s.len() == 0 {
        None
    } else if s[0].id == id {
        Some(s[0])
    } else {
        idx_find(s.drop_first(), id)
    }
}

/// No two index entries share an id.
pub open spec fn idx_ids_unique(s: Seq<OrderLocation>) -> bool {
    forall|i: int, j: int|
        0 <= i < j < s.len() ==> (#[trigger] s[i]).id != (#[trigger] s[j]).id
}

/// A side with the order inserted: merged into the level at its price if one
/// exists, else a fresh level at the price's best-first position.
pub open spec fn levels_insert(ls: Seq<LimitModel>, side: Side, price: u64, o: Order) -> Seq<
    LimitModel,
>
    decreases ls.len(),
{
    if ls.len() == 0 {
        seq![LimitModel { price, orders: seq![o] }]
    } else if ls[0].price == price {
        seq![LimitModel { price, orders: insert_by_arrival(ls[0].orders, o) }] + ls.drop_first()
    } else if price_before(side, price, ls[0].price) {
        seq![LimitModel { price, orders: seq![o] }] + ls
    } else {
        seq![ls[0]] + levels_insert(ls.drop_first(), side, price, o)
    }
}

/// A side with the order of the given id removed from the level at the given
/// price; the level is dropped when that removal empties it.
pub open spec fn levels_remove(ls: Seq<LimitModel>, price: u64, id: u128) -> Seq<LimitModel>
    decreases ls.len(),
{
    if ls.len() == 0 {
        ls
    } else if ls[0].price == price {
        let rem = remove_order_seq(ls[0].orders, id);
        (if rem.len() == 0 {
            Seq::<LimitModel>::empty()
        } else {
            seq![LimitModel { price, orders: rem }]
        }) + ls.drop_first()
    } else {
        seq![ls[0]] + levels_remove(ls.drop_first(), price, id)
    }
}

/// The resident order with the given id at the level of the given price.
pub open spec fn levels_find_order(ls: Seq<LimitModel>, price: u64, id: u128) -> Option<Order>
    decreases ls.len(),
{
    if ls.len() == 0 {
        None
    } else if ls[0].price == price {
        find_order(ls[0].orders, id)
    } else {
        levels_find_order(ls.drop_first(), price, id)
    }
}

/// Each order of a level paired with the level's price.
pub open spec fn spec_pairs(price: u64, orders: Seq<Order>) -> Seq<(u64, Order)>
    decreases orders.len(),
{
    if orders.len() == 0 {
        Seq::empty()
    } else {
        seq![(price, orders[0])] + spec_pairs(price, orders.drop_first())
    }
}

/// The read-only projection of one side: every resident order with its
/// price, best price level first and arrival order within a level.
pub open spec fn spec_flatten(ls: Seq<LimitModel>) -> Seq<(u64, Order)>
    decreases ls.len(),
{
    if ls.len() == 0 {
        Seq::empty()
    } else {
        spec_pairs(ls[0].price, ls[0].orders) + spec_flatten(ls.drop_first())
    }
}

/// The outcome of a market-order sweep over one side's levels, best price
/// first: the legs produced, the levels that survive (emptied levels are
/// pruned), and the aggressor with its remaining size.
pub ghost struct SweepOutcome {
    pub matches: Seq<Match>,
    pub levels: Seq<LimitModel>,
    pub taker: Order,
}

/// The market-order sweep: fill against each level in best-price-first
/// order, pruning levels that empty, and stop as soon as the aggressor is
/// fully filled.
pub open spec fn spec_sweep(ls: Seq<LimitModel>, taker: Order) -> SweepOutcome
    decreases ls.len(),
{
    if taker.size == 0 || ls.len() == 0 {
        SweepOutcome { matches: Seq::empty(), levels: ls, taker }
    } else {
        let f = spec_fill(ls[0].orders, taker, ls[0].price);
        let rest = spec_sweep(ls.drop_first(), f.taker);
        SweepOutcome {
            matches: f.matches + rest.matches,
            levels: (if f.remaining.len() == 0 {
                Seq::<LimitModel>::empty()
            } else {
                seq![LimitModel { price: ls[0].price, orders: f.remaining }]
            }) + rest.levels,
            taker: rest.taker,
        }
    }
}

proof fn lemma_idx_find_at(s: Seq<OrderLocation>, id: u128, pos: int)
    requires
        0 <= pos < s.len(),
        forall|i: int| 0 <= i < pos ==> (#[trigger] s[i]).id != id,
        s[pos].id == id,
    ensures
        idx_find(s, id) == Some(s[pos]),
    decreases s.len(),
{
    if pos > 0 {
        assert forall|i: int|
            0 <= i < pos - 1 implies (#[trigger] s.drop_first()[i]).id != id by {
            assert(s.drop_first()[i] == s[i + 1]);
        }
        assert(s.drop_first()[pos - 1] == s[pos]);
        lemma_idx_find_at(s.drop_first(), id, pos - 1);
    }
}

/// What `idx_find` says about the entries: `None` means no entry has the id,
/// and a hit is an entry of the sequence with that id.
proof fn lemma_idx_find_ids(s: Seq<OrderLocation>, id: u128)
    ensures
        (idx_find(s, id) is None <==> forall|i: int| 0 <= i < s.len() ==> (#[trigger] s[i]).id
            != id),
        idx_find(s, id) is Some ==> {
            let e = idx_find(s, id)->0;
            &&& e.id == id
            &&& exists|i: int| 0 <= i < s.len() && #[trigger] s[i] == e
        },
    decreases s.len(),
{
    if s.len() > 0 && s[0].id != id {
        lemma_idx_find_ids(s.drop_first(), id);
        if idx_find(s, id) is None {
            assert forall|i: int| 0 <= i < s.len() implies (#[trigger] s[i]).id != id by {
                if i > 0 {
                    assert(s.drop_first()[i - 1] == s[i]);
                }
            }
        } else {
            let e = idx_find(s, id)->0;
            let i = choose|i: int| 0 <= i < s.drop_first().len() && #[trigger] s.drop_first()[i]
                == e;
            assert(s[i + 1] == e);
        }
    }
}

/// Appending an entry changes `idx_find` only for ids that were absent.
proof fn lemma_idx_find_push(s: Seq<OrderLocation>, e: OrderLocation, id: u128)
    ensures
        idx_find(s.push(e), id) == (if idx_find(s, id) is Some {
            idx_find(s, id)
        } else if e.id == id {
            Some(e)
        } else {
            None::<OrderLocation>
        }),
    decreases s.len(),
{
    if s.len() == 0 {
        assert(s.push(e)[0] == e);
        assert(s.push(e).drop_first() =~= Seq::<OrderLocation>::empty());
    } else {
        assert(s.push(e)[0] == s[0]);
        assert(s.push(e).drop_first() =~= s.drop_first().push(e));
        lemma_idx_find_push(s.drop_first(), e, id);
    }
}

pub proof fn lemma_levels_volume_nonneg(ls: Seq<LimitModel>)
    ensures
        levels_volume(ls) >= 0,
    decreases ls.len(),
{
    if ls.len() > 0 {
        lemma_sum_nonneg(ls[0].orders);
        lemma_levels_volume_nonneg(ls.drop_first());
    }
}

pub proof fn lemma_levels_volume_concat(a: Seq<LimitModel>, b: Seq<LimitModel>)
    ensures
        levels_volume(a + b) == levels_volume(a) + levels_volume(b),
    decreases a.len(),
{
    if a.len() == 0 {
        assert(a + b =~= b);
    } else {
        assert((a + b).drop_first() =~= a.drop_first() + b);
        lemma_levels_volume_concat(a.drop_first(), b);
    }
}

/// The volume of one level, split out of the side's total.
pub proof fn lemma_levels_volume_element(ls: Seq<LimitModel>, i: int)
    requires
        0 <= i < ls.len(),
    ensures
        levels_volume(ls) == levels_volume(ls.take(i)) + sum_sizes(ls[i].orders) + levels_volume(
            ls.skip(i + 1),
        ),
        sum_sizes(ls[i].orders) <= levels_volume(ls) - levels_volume(ls.take(i)) - levels_volume(
            ls.skip(i + 1),
        ),
{
    assert(ls =~= ls.take(i) + (seq![ls[i]] + ls.skip(i + 1)));
    lemma_levels_volume_concat(ls.take(i), seq![ls[i]] + ls.skip(i + 1));
    lemma_levels_volume_concat(seq![ls[i]], ls.skip(i + 1));
    assert(levels_volume(seq![ls[i]]) == sum_sizes(ls[i].orders) + levels_volume(
        seq![ls[i]].drop_first(),
    ));
    assert(seq![ls[i]].drop_first() =~= Seq::<LimitModel>::empty());
}

/// `levels_insert` at the concrete position the search finds: merged into an
/// existing level of the same price, or a fresh level inserted there.
proof fn lemma_levels_insert_at(ls: Seq<LimitModel>, side: Side, price: u64, o: Order, pos: int)
    requires
        0 <= pos <= ls.len(),
        forall|i: int| 0 <= i < pos ==> price_before(side, (#[trigger] ls[i]).price, price),
        pos < ls.len() ==> (ls[pos].price == price || price_before(side, price, ls[pos].price)),
    ensures
        pos < ls.len() && ls[pos].price == price ==> levels_insert(ls, side, price, o) =~= ls
            .update(
            pos,
            LimitModel { price, orders: insert_by_arrival(ls[pos].orders, o) },
        ),
        !(pos < ls.len() && ls[pos].price == price) ==> levels_insert(ls, side, price, o) =~= ls
            .insert(pos, LimitModel { price, orders: seq![o] }),
    decreases ls.len(),
{
    if ls.len() == 0 {
        assert(levels_insert(ls, side, price, o) =~= ls.insert(
            0,
            LimitModel { price, orders: seq![o] },
        ));
    } else if pos == 0 {
        if ls[0].price == price {
            assert(seq![LimitModel { price, orders: insert_by_arrival(ls[0].orders, o) }]
                + ls.drop_first() =~= ls.update(
                0,
                LimitModel { price, orders: insert_by_arrival(ls[0].orders, o) },
            ));
        } else {
            assert(price_before(side, price, ls[0].price));
            assert(seq![LimitModel { price, orders: seq![o] }] + ls =~= ls.insert(
                0,
                LimitModel { price, orders: seq![o] },
            ));
        }
    } else {
        assert(price_before(side, ls[0].price, price));
        assert(ls[0].price != price && !price_before(side, price, ls[0].price));
        assert forall|i: int|
            0 <= i < pos - 1 implies price_before(
            side,
            (#[trigger] ls.drop_first()[i]).price,
            price,
        ) by {
            assert(ls.drop_first()[i] == ls[i + 1]);
        }
        if pos - 1 < ls.drop_first().len() {
            assert(ls.drop_first()[pos - 1] == ls[pos]);
        }
        lemma_levels_insert_at(ls.drop_first(), side, price, o, pos - 1);
        if pos < ls.len() && ls[pos].price == price {
            assert(seq![ls[0]] + ls.drop_first().update(
                pos - 1,
                LimitModel { price, orders: insert_by_arrival(ls[pos].orders, o) },
            ) =~= ls.update(
                pos,
                LimitModel { price, orders: insert_by_arrival(ls[pos].orders, o) },
            ));
        } else {
            assert(seq![ls[0]] + ls.drop_first().insert(
                pos - 1,
                LimitModel { price, orders: seq![o] },
            ) =~= ls.insert(pos, LimitModel { price, orders: seq![o] }));
        }
    }
}

/// Best-price-first comparison, executable form.
fn price_comes_before(side: Side, a: u64, b: u64) -> (r: bool)
    ensures
        r == price_before(side, a, b),
{
    match side {
        Side::Ask => a < b,
        Side::Bid => a > b,
    }
}

/// The best-first position for a price on one side: the index of its level
/// when one exists, else the index where a fresh level belongs.
fn level_position(levels: &Vec<Limit>, side: Side, price: u64) -> (pos: usize)
    ensures
        0 <= pos <= levels@.len(),
        forall|i: int|
            0 <= i < pos ==> price_before(side, (#[trigger] models_of(levels@)[i]).price, price),
        pos < levels@.len() ==> (models_of(levels@)[pos as int].price == price || price_before(
            side,
            price,
            models_of(levels@)[pos as int].price,
        )),
{
    let mut pos: usize = 0;
    while pos < levels.len()
        invariant
            0 <= pos <= levels@.len(),
            forall|i: int|
                0 <= i < pos ==> price_before(
                    side,
                    (#[trigger] models_of(levels@)[i]).price,
                    price,
                ),
        decreases levels@.len() - pos,
    {
        let p = levels[pos].price;
        if p == price || price_comes_before(side, price, p) {
            return pos;
        }
        proof {
            assert(models_of(levels@)[pos as int].price == p);
            assert(price_before(side, p, price));
        }
        pos += 1;
    }
    pos
}

/// Inserts an order into a side's levels: merged into the level at its price
/// when one exists, else into a fresh level at the best-first position.
#[verifier::rlimit(100)]
#[verifier::spinoff_prover]
fn insert_into_side(levels: &mut Vec<Limit>, side: Side, price: u64, order: Order)
    requires
        side_wf(models_of(old(levels)@), side),
        forall|i: int| 0 <= i < old(levels)@.len() ==> (#[trigger] old(levels)@[i]).wf(),
        order.side == side,
        order.size > 0,
        !side_contains(models_of(old(levels)@), order.id),
        levels_volume(models_of(old(levels)@)) + order.size <= u64::MAX,
    ensures
        models_of(final(levels)@) == levels_insert(models_of(old(levels)@), side, price, order),
        side_wf(models_of(final(levels)@), side),
        forall|i: int| 0 <= i < final(levels)@.len() ==> (#[trigger] final(levels)@[i]).wf(),
        levels_volume(models_of(final(levels)@)) == levels_volume(models_of(old(levels)@))
            + order.size,
        forall|id: u128, p: u64| #[trigger]
            side_locates(models_of(final(levels)@), id, p) <==> (side_locates(
                models_of(old(levels)@),
                id,
                p,
            ) || (id == order.id && p == price)),
        forall|id: u128| #[trigger]
            side_contains(models_of(final(levels)@), id) <==> (side_contains(
                models_of(old(levels)@),
                id,
            ) || id == order.id),
{
    let ghost ls = models_of(levels@);
    let pos = level_position(levels, side, price);
    proof {
        lemma_levels_insert_at(ls, side, price, order, pos as int);
        lemma_levels_volume_nonneg(ls);
    }
    let merging = pos < levels.len() && levels[pos].price == price;
    if merging {
        proof {
            lemma_levels_volume_element(ls, pos as int);
            lemma_levels_volume_nonneg(ls.take(pos as int));
            lemma_levels_volume_nonneg(ls.skip(pos as int + 1));
            assert(!contains_id(ls[pos as int].orders, order.id)) by {
                if contains_id(ls[pos as int].orders, order.id) {
                    assert(side_contains(ls, order.id));
                }
            }
        }
        let mut l = levels.remove(pos);
        l.add_order(order);
        levels.insert(pos, l);
        proof {
            assert(levels@ =~= old(levels)@.update(pos as int, levels@[pos as int]));
            assert(models_of(levels@) =~= ls.update(
                pos as int,
                LimitModel { price, orders: insert_by_arrival(ls[pos as int].orders, order) },
            ));
        }
    } else {
        let mut l = Limit::new(price);
        proof {
            assert(!contains_id(l@.orders, order.id));
        }
        l.add_order(order);
        levels.insert(pos, l);
        proof {
            assert(insert_by_arrival(Seq::<Order>::empty(), order) =~= seq![order]);
            assert(l@.orders =~= seq![order]);
            assert(models_of(levels@) =~= ls.insert(
                pos as int,
                LimitModel { price, orders: seq![order] },
            ));
        }
    }
    proof {
        let t = models_of(levels@);
        let nl = t[pos as int];
        // Volume: only the touched level's sum changed, by the order's size.
        lemma_levels_volume_element(t, pos as int);
        if merging {
            lemma_levels_volume_element(ls, pos as int);
            assert(t.take(pos as int) =~= ls.take(pos as int));
            assert(t.skip(pos as int + 1) =~= ls.skip(pos as int + 1));
        } else {
            assert(t.take(pos as int) =~= ls.take(pos as int));
            assert(t.skip(pos as int + 1) =~= ls.skip(pos as int));
            assert(ls =~= ls.take(pos as int) + ls.skip(pos as int));
            lemma_levels_volume_concat(ls.take(pos as int), ls.skip(pos as int));
            crate::limit::lemma_sum_push(Seq::<Order>::empty(), order);
            assert(seq![order] =~= Seq::<Order>::empty().push(order));
            assert(sum_sizes(nl.orders) == order.size);
        }
        assert(levels_volume(t) == levels_volume(ls) + order.size);
        // Side well-formedness of the result.
        assert forall|i: int| 0 <= i < t.len() implies (#[trigger] t[i]).wf() && t[i].orders.len()
            > 0 && all_side(t[i].orders, side) by {
            if merging || i != pos {
                let i0: int = if merging || i < pos {
                    i
                } else {
                    i - 1
                };
                if i == pos && merging {
                    assert forall|k: int|
                        0 <= k < t[i].orders.len() implies (#[trigger] t[i].orders[k]).side
                        == side by {
                        if t[i].orders[k] != order {
                            let w = choose|w: int|
                                0 <= w < ls[pos as int].orders.len() && #[trigger] ls[
                                    pos as int
                                ].orders[w] == t[i].orders[k];
                        }
                    }
                } else {
                    assert(t[i] == ls[i0]);
                }
            } else {
                assert(t[i].orders =~= seq![order]);
            }
        }
        assert forall|i: int, j: int| 0 <= i < j < t.len() implies price_before(
            side,
            (#[trigger] t[i]).price,
            (#[trigger] t[j]).price,
        ) by {
            if merging {
                assert(t[i].price == ls[i].price && t[j].price == ls[j].price);
            } else {
                let i0: int = if i < pos {
                    i
                } else {
                    i - 1
                };
                let j0: int = if j < pos {
                    j
                } else {
                    j - 1
                };
                if i == pos {
                    assert(t[j] == ls[j0] && pos <= j0);
                    if j0 == pos {
                    } else {
                        assert(price_before(side, ls[pos as int].price, ls[j0].price));
                    }
                } else if j == pos {
                    assert(t[i] == ls[i]);
                } else {
                    assert(t[i] == ls[i0] && t[j] == ls[j0]);
                }
            }
        }
        // Membership equivalences.
        assert forall|id: u128, p: u64| #[trigger]
            side_locates(t, id, p) implies (side_locates(ls, id, p) || (id == order.id && p
            == price)) by {
            let i = choose|i: int|
                0 <= i < t.len() && (#[trigger] t[i]).price == p && contains_id(t[i].orders, id);
            if merging {
                if i == pos {
                    if id != order.id {
                        assert(contains_id(ls[pos as int].orders, id));
                        assert(side_locates(ls, id, p));
                    }
                } else {
                    assert(t[i] == ls[i]);
                    assert(side_locates(ls, id, p));
                }
            } else {
                if i == pos {
                    let w = choose|w: int|
                        0 <= w < t[i].orders.len() && (#[trigger] t[i].orders[w]).id == id;
                    assert(t[i].orders[w] == order);
                } else {
                    let i0: int = if i < pos {
                        i
                    } else {
                        i - 1
                    };
                    assert(t[i] == ls[i0]);
                    assert(side_locates(ls, id, p));
                }
            }
        }
        assert forall|id: u128, p: u64|
            (side_locates(ls, id, p) || (id == order.id && p == price)) implies #[trigger]
            side_locates(t, id, p) by {
            if side_locates(ls, id, p) {
                let i = choose|i: int|
                    0 <= i < ls.len() && (#[trigger] ls[i]).price == p && contains_id(
                        ls[i].orders,
                        id,
                    );
                if merging {
                    if i == pos {
                        assert(t[i].price == p);
                        assert(contains_id(t[i].orders, id));
                    } else {
                        assert(t[i] == ls[i]);
                    }
                } else {
                    let i1: int = if i < pos {
                        i
                    } else {
                        i + 1
                    };
                    assert(t[i1] == ls[i]);
                }
            } else {
                assert(t[pos as int].price == price);
                assert(contains_id(t[pos as int].orders, order.id));
            }
        }
        assert forall|id: u128| #[trigger]
            side_contains(t, id) implies (side_contains(ls, id) || id == order.id) by {
            let i = choose|i: int| 0 <= i < t.len() && contains_id((#[trigger] t[i]).orders, id);
            assert(side_locates(t, id, t[i].price));
        }
        assert forall|id: u128|
            (side_contains(ls, id) || id == order.id) implies #[trigger] side_contains(t, id) by {
            if side_contains(ls, id) {
                let i = choose|i: int|
                    0 <= i < ls.len() && contains_id((#[trigger] ls[i]).orders, id);
                assert(side_locates(ls, id, ls[i].price));
                assert(side_locates(t, id, ls[i].price));
                let i1 = choose|i1: int|
                    0 <= i1 < t.len() && (#[trigger] t[i1]).price == ls[i].price && contains_id(
                        t[i1].orders,
                        id,
                    );
            } else {
                assert(contains_id(t[pos as int].orders, order.id));
            }
        }
    }
}

/// `levels_remove` and `levels_find_order` at the concrete position of the
/// (unique) level with the price.
proof fn lemma_levels_remove_at(ls: Seq<LimitModel>, price: u64, id: u128, pos: int)
    requires
        0 <= pos < ls.len(),
        forall|i: int| 0 <= i < pos ==> (#[trigger] ls[i]).price != price,
        ls[pos].price == price,
    ensures
        levels_find_order(ls, price, id) == find_order(ls[pos].orders, id),
        levels_remove(ls, price, id) =~= (if remove_order_seq(ls[pos].orders, id).len() == 0 {
            ls.remove(pos)
        } else {
            ls.update(pos, LimitModel { price, orders: remove_order_seq(ls[pos].orders, id) })
        }),
    decreases ls.len(),
{
    if pos == 0 {
        if remove_order_seq(ls[0].orders, id).len() == 0 {
            assert(Seq::<LimitModel>::empty() + ls.drop_first() =~= ls.remove(0));
        } else {
            assert(seq![LimitModel { price, orders: remove_order_seq(ls[0].orders, id) }]
                + ls.drop_first() =~= ls.update(
                0,
                LimitModel { price, orders: remove_order_seq(ls[0].orders, id) },
            ));
        }
    } else {
        assert(ls[0].price != price);
        assert forall|i: int|
            0 <= i < pos - 1 implies (#[trigger] ls.drop_first()[i]).price != price by {
            assert(ls.drop_first()[i] == ls[i + 1]);
        }
        assert(ls.drop_first()[pos - 1] == ls[pos]);
        lemma_levels_remove_at(ls.drop_first(), price, id, pos - 1);
        if remove_order_seq(ls[pos].orders, id).len() == 0 {
            assert(seq![ls[0]] + ls.drop_first().remove(pos - 1) =~= ls.remove(pos));
        } else {
            assert(seq![ls[0]] + ls.drop_first().update(
                pos - 1,
                LimitModel { price, orders: remove_order_seq(ls[pos].orders, id) },
            ) =~= ls.update(
                pos,
                LimitModel { price, orders: remove_order_seq(ls[pos].orders, id) },
            ));
        }
    }
}

/// With no level at the price, removal changes nothing and finds nothing.
proof fn lemma_levels_remove_absent(ls: Seq<LimitModel>, price: u64, id: u128)
    requires
        forall|i: int| 0 <= i < ls.len() ==> (#[trigger] ls[i]).price != price,
    ensures
        levels_find_order(ls, price, id) == None::<Order>,
        levels_remove(ls, price, id) =~= ls,
    decreases ls.len(),
{
    if ls.len() > 0 {
        assert forall|i: int|
            0 <= i < ls.drop_first().len() implies (#[trigger] ls.drop_first()[i]).price
            != price by {
            assert(ls.drop_first()[i] == ls[i + 1]);
        }
        lemma_levels_remove_absent(ls.drop_first(), price, id);
        assert(seq![ls[0]] + ls.drop_first() =~= ls);
    }
}

/// The position of the first level at the given price, if any.
fn find_price_position(levels: &Vec<Limit>, price: u64) -> (r: Option<usize>)
    ensures
        match r {
            Some(pos) => {
                &&& 0 <= pos < levels@.len()
                &&& models_of(levels@)[pos as int].price == price
                &&& forall|i: int|
                    0 <= i < pos ==> (#[trigger] models_of(levels@)[i]).price != price
            },
            None => forall|i: int|
                0 <= i < levels@.len() ==> (#[trigger] models_of(levels@)[i]).price != price,
        },
{
    let mut pos: usize = 0;
    while pos < levels.len()
        invariant
            0 <= pos <= levels@.len(),
            forall|i: int| 0 <= i < pos ==> (#[trigger] models_of(levels@)[i]).price != price,
        decreases levels@.len() - pos,
    {
        if levels[pos].price == price {
            return Some(pos);
        }
        proof {
            assert(models_of(levels@)[pos as int].price != price);
        }
        pos += 1;
    }
    None
}

/// Removes the entry with the given id from the index and returns it.
fn index_remove(index: &mut Vec<OrderLocation>, id: u128) -> (r: Option<OrderLocation>)
    requires
        idx_ids_unique(old(index)@),
    ensures
        r == idx_find(old(index)@, id),
        r is None ==> *final(index) == *old(index),
        idx_ids_unique(final(index)@),
        idx_find(final(index)@, id) is None,
        forall|id2: u128|
            id2 != id ==> #[trigger] idx_find(final(index)@, id2) == idx_find(old(index)@, id2),
        forall|k: int| 0 <= k < final(index)@.len() ==> old(index)@.contains(#[trigger] final(index)@[k]),
{
    let ghost s = index@;
    let mut pos: usize = 0;
    while pos < index.len()
        invariant
            0 <= pos <= s.len(),
            *index == *old(index),
            index@ == s,
            s == old(index)@,
            idx_ids_unique(s),
            forall|i: int| 0 <= i < pos ==> (#[trigger] s[i]).id != id,
        decreases s.len() - pos,
    {
        if index[pos].id == id {
            proof {
                lemma_idx_find_at(s, id, pos as int);
            }
            let e = index.remove(pos);
            proof {
                let t = index@;
                assert(t =~= s.remove(pos as int));
                assert forall|i: int, j: int|
                    0 <= i < j < t.len() implies (#[trigger] t[i]).id != (#[trigger] t[j]).id by {
                    let i0: int = if i < pos {
                        i
                    } else {
                        i + 1
                    };
                    let j0: int = if j < pos {
                        j
                    } else {
                        j + 1
                    };
                    assert(t[i] == s[i0] && t[j] == s[j0]);
                }
                assert forall|k: int| 0 <= k < t.len() implies s.contains(#[trigger] t[k]) by {
                    let k0: int = if k < pos {
                        k
                    } else {
                        k + 1
                    };
                    assert(t[k] == s[k0]);
                }
                lemma_idx_find_ids(t, id);
                assert forall|i: int| 0 <= i < t.len() implies (#[trigger] t[i]).id != id by {
                    let i0: int = if i < pos {
                        i
                    } else {
                        i + 1
                    };
                    assert(t[i] == s[i0]);
                    if i0 != pos {
                        assert(s[i0].id != s[pos as int].id);
                    }
                }
                assert forall|id2: u128| id2 != id implies #[trigger] idx_find(t, id2) == idx_find(
                    s,
                    id2,
                ) by {
                    lemma_idx_find_ids(s, id2);
                    lemma_idx_find_ids(t, id2);
                    if idx_find(s, id2) is Some {
                        let w = choose|w: int|
                            0 <= w < s.len() && #[trigger] s[w] == idx_find(s, id2)->0;
                        assert forall|i: int|
                            0 <= i < s.len() && i != w implies (#[trigger] s[i]).id != id2 by {
                            if s[i].id == id2 && s[w].id == id2 {
                            }
                        }
                        lemma_idx_find_at(s, id2, w);
                        let w1: int = if w < pos {
                            w
                        } else {
                            w - 1
                        };
                        assert(t[w1] == s[w]);
                        assert forall|i: int|
                            0 <= i < w1 implies (#[trigger] t[i]).id != id2 by {
                            let i0: int = if i < pos {
                                i
                            } else {
                                i + 1
                            };
                            assert(t[i] == s[i0]);
                        }
                        lemma_idx_find_at(t, id2, w1);
                    } else {
                        if idx_find(t, id2) is Some {
                            let w = choose|w: int|
                                0 <= w < t.len() && #[trigger] t[w] == idx_find(t, id2)->0;
                            let w0: int = if w < pos {
                                w
                            } else {
                                w + 1
                            };
                            assert(t[w] == s[w0]);
                        }
                    }
                }
            }
            return Some(e);
        }
        pos += 1;
    }
    proof {
        lemma_idx_find_ids(s, id);
    }
    None
}

/// Removes the order with the given id from the side's level at the given
/// price: the order leaves both the level and, when that empties the level,
/// the level leaves the side. A missing level or a missing order is a
/// reported error and leaves the side untouched.
#[verifier::rlimit(100)]
#[verifier::spinoff_prover]
fn remove_from_side(levels: &mut Vec<Limit>, side: Side, price: u64, id: u128) -> (r: Result<
    Order,
    OrderBookError,
>)
    requires
        side_wf(models_of(old(levels)@), side),
        forall|i: int| 0 <= i < old(levels)@.len() ==> (#[trigger] old(levels)@[i]).wf(),
    ensures
        forall|i: int| 0 <= i < final(levels)@.len() ==> (#[trigger] final(levels)@[i]).wf(),
        models_of(final(levels)@) == levels_remove(models_of(old(levels)@), price, id),
        side_wf(models_of(final(levels)@), side),
        r is Err ==> final(levels)@ == old(levels)@,
        !side_has_price(models_of(old(levels)@), price) ==> r == Err::<Order, OrderBookError>(
            OrderBookError::LimitNotFound(price),
        ),
        side_has_price(models_of(old(levels)@), price) && levels_find_order(
            models_of(old(levels)@),
            price,
            id,
        ) is None ==> r == Err::<Order, OrderBookError>(OrderBookError::OrderNotFound(id)),
        levels_find_order(models_of(old(levels)@), price, id) is Some ==> ({
            let ls = models_of(old(levels)@);
            let t = models_of(final(levels)@);
            let o = levels_find_order(ls, price, id)->0;
            &&& r == Ok::<Order, OrderBookError>(o)
            &&& o.id == id
            &&& o.side == side
            &&& o.size > 0
            &&& levels_volume(t) == levels_volume(ls) - o.size
            &&& forall|id2: u128, p: u64| #[trigger]
                side_locates(t, id2, p) <==> (side_locates(ls, id2, p) && !(id2 == id && p
                    == price))
        }),
{
    let ghost ls = models_of(levels@);
    let pos = match find_price_position(levels, price) {
        None => {
            proof {
                lemma_levels_remove_absent(ls, price, id);
                assert(models_of(levels@) =~= levels_remove(ls, price, id));
                assert(!side_has_price(ls, price)) by {
                    if side_has_price(ls, price) {
                        let i = choose|i: int|
                            0 <= i < ls.len() && (#[trigger] ls[i]).price == price;
                    }
                }
            }
            return Err(OrderBookError::LimitNotFound(price));
        },
        Some(pos) => pos,
    };
    proof {
        lemma_levels_remove_at(ls, price, id, pos as int);
        assert(side_has_price(ls, price)) by {
            assert(ls[pos as int].price == price);
        }
    }
    let mut l = levels.remove(pos);
    let removed = l.remove_order(id);
    match removed {
        None => {
            levels.insert(pos, l);
            proof {
                assert(levels@ =~= old(levels)@);
                assert(models_of(levels@) =~= ls);
                assert(remove_order_seq(ls[pos as int].orders, id) == ls[pos as int].orders);
                assert(ls[pos as int].orders.len() > 0);
                assert(ls.update(pos as int, LimitModel { price, orders: ls[pos as int].orders })
                    =~= ls);
                assert(models_of(levels@) =~= levels_remove(ls, price, id));
            }
            Err(OrderBookError::OrderNotFound(id))
        },
        Some(o) => {
            let empty_now = l.is_empty();
            if !empty_now {
                levels.insert(pos, l);
            }
            proof {
                let t = models_of(levels@);
                let rem = remove_order_seq(ls[pos as int].orders, id);
                assert(Some(o) == find_order(ls[pos as int].orders, id));
                crate::limit::lemma_find_order_contains(ls[pos as int].orders, id);
                let w = choose|w: int|
                    0 <= w < ls[pos as int].orders.len() && #[trigger] ls[pos as int].orders[w]
                        == o;
                assert(o.side == side);
                assert(o.size > 0);
                // The new side models are exactly the specified removal.
                if empty_now {
                    assert(t =~= ls.remove(pos as int));
                    assert(rem.len() == 0);
                } else {
                    assert(t =~= ls.update(pos as int, LimitModel { price, orders: rem }));
                    assert(rem.len() > 0);
                }
                assert(t == levels_remove(ls, price, id));
                // Volume drops by exactly the removed order's size.
                lemma_levels_volume_element(ls, pos as int);
                if empty_now {
                    assert(t =~= ls.take(pos as int) + ls.skip(pos as int + 1));
                    lemma_levels_volume_concat(ls.take(pos as int), ls.skip(pos as int + 1));
                } else {
                    lemma_levels_volume_element(t, pos as int);
                    assert(t.take(pos as int) =~= ls.take(pos as int));
                    assert(t.skip(pos as int + 1) =~= ls.skip(pos as int + 1));
                }
                // Well-formedness of the result.
                assert forall|i: int|
                    0 <= i < t.len() implies (#[trigger] t[i]).wf() && t[i].orders.len() > 0
                    && all_side(t[i].orders, side) by {
                    if !empty_now && i == pos {
                        assert forall|k: int|
                            0 <= k < t[i].orders.len() implies (#[trigger] t[i].orders[k]).side
                            == side by {
                            let w2 = choose|w2: int|
                                0 <= w2 < ls[pos as int].orders.len() && #[trigger] ls[
                                    pos as int
                                ].orders[w2] == t[i].orders[k];
                        }
                    } else {
                        let i0: int = if empty_now && i >= pos {
                            i + 1
                        } else {
                            i
                        };
                        assert(t[i] == ls[i0]);
                    }
                }
                assert forall|i: int, j: int| 0 <= i < j < t.len() implies price_before(
                    side,
                    (#[trigger] t[i]).price,
                    (#[trigger] t[j]).price,
                ) by {
                    let i0: int = if empty_now && i >= pos {
                        i + 1
                    } else {
                        i
                    };
                    let j0: int = if empty_now && j >= pos {
                        j + 1
                    } else {
                        j
                    };
                    assert(t[i].price == ls[i0].price && t[j].price == ls[j0].price);
                }
                // Membership: exactly the cancelled order left the side.
                assert forall|id2: u128, p: u64| #[trigger]
                    side_locates(t, id2, p) implies (side_locates(ls, id2, p) && !(id2 == id && p
                    == price)) by {
                    let i = choose|i: int|
                        0 <= i < t.len() && (#[trigger] t[i]).price == p && contains_id(
                            t[i].orders,
                            id2,
                        );
                    if !empty_now && i == pos {
                        assert(contains_id(ls[pos as int].orders, id2) && id2 != id);
                        assert(side_locates(ls, id2, p));
                    } else {
                        let i0: int = if empty_now && i >= pos {
                            i + 1
                        } else {
                            i
                        };
                        assert(t[i] == ls[i0]);
                        assert(side_locates(ls, id2, p));
                        if id2 == id && p == price {
                            assert(ls[i0].price == ls[pos as int].price && i0 != pos);
                        }
                    }
                }
                assert forall|id2: u128, p: u64|
                    (side_locates(ls, id2, p) && !(id2 == id && p == price)) implies #[trigger]
                    side_locates(t, id2, p) by {
                    let i = choose|i: int|
                        0 <= i < ls.len() && (#[trigger] ls[i]).price == p && contains_id(
                            ls[i].orders,
                            id2,
                        );
                    if i == pos {
                        assert(id2 != id);
                        assert(contains_id(rem, id2));
                        assert(rem.len() > 0);
                        assert(t[pos as int].price == p && contains_id(t[pos as int].orders, id2));
                    } else {
                        let i1: int = if empty_now && i > pos {
                            i - 1
                        } else {
                            i
                        };
                        assert(t[i1] == ls[i]);
                    }
                }
            }
            Ok(o)
        },
    }
}

/// After a cancellation, the index and the book still agree: the removed
/// order's entry is gone, every other entry and resident is untouched.
proof fn lemma_index_ok_after_remove(pre: OrderBook, post: OrderBook, loc: OrderLocation)
    requires
        pre.wf(),
        idx_find(pre.order_index@, loc.id) == Some(loc),
        idx_ids_unique(post.order_index@),
        idx_find(post.order_index@, loc.id) is None,
        forall|id2: u128|
            id2 != loc.id ==> #[trigger] idx_find(post.order_index@, id2) == idx_find(
                pre.order_index@,
                id2,
            ),
        forall|k: int|
            0 <= k < post.order_index@.len() ==> pre.order_index@.contains(
                #[trigger] post.order_index@[k],
            ),
        forall|id2: u128, p: u64| #[trigger]
            side_locates(post.side_model(loc.side), id2, p) <==> (side_locates(
                pre.side_model(loc.side),
                id2,
                p,
            ) && !(id2 == loc.id && p == loc.price)),
        post.side_model(spec_opposite(loc.side)) == pre.side_model(spec_opposite(loc.side)),
    ensures
        post.index_ok(),
{
    let id = loc.id;
    lemma_idx_find_ids(pre.order_index@, id);
    assert forall|k: int| 0 <= k < post.order_index@.len() implies side_locates(
        post.side_model((#[trigger] post.order_index@[k]).side),
        post.order_index@[k].id,
        post.order_index@[k].price,
    ) by {
        let e = post.order_index@[k];
        let k0 = choose|k0: int|
            0 <= k0 < pre.order_index@.len() && #[trigger] pre.order_index@[k0] == e;
        assert(side_locates(pre.side_model(e.side), e.id, e.price));
        lemma_idx_find_ids(post.order_index@, e.id);
        assert(e.id != id);
        if e.side == loc.side {
            assert(side_locates(post.side_model(loc.side), e.id, e.price));
        }
    }
    assert forall|i: int, k: int|
        0 <= i < post.asks_model().len() && 0 <= k < post.asks_model()[i].orders.len()
        implies idx_find(post.order_index@, (#[trigger] post.asks_model()[i].orders[k]).id)
        == Some(
        OrderLocation {
            id: post.asks_model()[i].orders[k].id,
            side: Side::Ask,
            price: post.asks_model()[i].price,
        },
    ) by {
        let id2 = post.asks_model()[i].orders[k].id;
        let p = post.asks_model()[i].price;
        assert(side_locates(post.asks_model(), id2, p));
        if loc.side == Side::Ask {
            assert(side_locates(post.side_model(loc.side), id2, p));
            assert(side_locates(pre.asks_model(), id2, p) && !(id2 == id && p == loc.price));
            lemma_located_idx_find_ask(pre, id2, p);
            assert(id2 != id);
        } else {
            assert(post.asks_model() == pre.asks_model());
            lemma_located_idx_find_ask(pre, id2, p);
            assert(id2 != id);
        }
    }
    assert forall|i: int, k: int|
        0 <= i < post.bids_model().len() && 0 <= k < post.bids_model()[i].orders.len()
        implies idx_find(post.order_index@, (#[trigger] post.bids_model()[i].orders[k]).id)
        == Some(
        OrderLocation {
            id: post.bids_model()[i].orders[k].id,
            side: Side::Bid,
            price: post.bids_model()[i].price,
        },
    ) by {
        let id2 = post.bids_model()[i].orders[k].id;
        let p = post.bids_model()[i].price;
        assert(side_locates(post.bids_model(), id2, p));
        if loc.side == Side::Bid {
            assert(side_locates(post.side_model(loc.side), id2, p));
            assert(side_locates(pre.bids_model(), id2, p) && !(id2 == id && p == loc.price));
            lemma_located_idx_find_bid(pre, id2, p);
            assert(id2 != id);
        } else {
            assert(post.bids_model() == pre.bids_model());
            lemma_located_idx_find_bid(pre, id2, p);
            assert(id2 != id);
        }
    }
}

/// Appending one leg extends what the legs remove by exactly that leg's
/// fully consumed resident, if it has one.
proof fn lemma_match_removes_push(ms: Seq<Match>, m: Match, taker_side: Side)
    ensures
        forall|id: u128| #[trigger]
            match_removes(ms.push(m), taker_side, id) <==> (match_removes(ms, taker_side, id) || (
            resident_of(m, taker_side).size == 0 && resident_of(m, taker_side).id == id)),
{
    let t = ms.push(m);
    assert forall|id: u128| #[trigger]
        match_removes(t, taker_side, id) implies (match_removes(ms, taker_side, id) || (
    resident_of(m, taker_side).size == 0 && resident_of(m, taker_side).id == id)) by {
        let j = choose|j: int|
            0 <= j < t.len() && resident_of(#[trigger] t[j], taker_side).size == 0 && resident_of(
                t[j],
                taker_side,
            ).id == id;
        if j < ms.len() {
            assert(t[j] == ms[j]);
            assert(match_removes(ms, taker_side, id));
        } else {
            assert(t[j] == m);
        }
    }
    assert forall|id: u128|
        (match_removes(ms, taker_side, id) || (resident_of(m, taker_side).size == 0 && resident_of(
            m,
            taker_side,
        ).id == id)) implies #[trigger] match_removes(t, taker_side, id) by {
        if match_removes(ms, taker_side, id) {
            let j = choose|j: int|
                0 <= j < ms.len() && resident_of(#[trigger] ms[j], taker_side).size == 0
                    && resident_of(ms[j], taker_side).id == id;
            assert(t[j] == ms[j]);
        } else {
            assert(t[ms.len() as int] == m);
        }
    }
}

/// In an index with unique ids, each entry is exactly what a lookup of its
/// id returns.
proof fn lemma_idx_find_unique_entry(s: Seq<OrderLocation>, k: int)
    requires
        idx_ids_unique(s),
        0 <= k < s.len(),
    ensures
        idx_find(s, s[k].id) == Some(s[k]),
{
    assert forall|i: int| 0 <= i < k implies (#[trigger] s[i]).id != s[k].id by {}
    lemma_idx_find_at(s, s[k].id, k);
}

/// In a well-formed book, no order id occurs in two levels of one side.
proof fn lemma_wf_side_ids_unique(b: OrderBook)
    requires
        b.wf(),
    ensures
        side_ids_unique(b.asks_model()),
        side_ids_unique(b.bids_model()),
{
    let la = b.asks_model();
    assert forall|i: int, j: int, id: u128|
        0 <= i < j < la.len() && #[trigger] contains_id(la[i].orders, id) implies !#[trigger]
    contains_id(la[j].orders, id) by {
        if contains_id(la[j].orders, id) {
            assert(side_locates(la, id, la[i].price));
            lemma_located_idx_find_ask(b, id, la[i].price);
            assert(side_locates(la, id, la[j].price));
            lemma_located_idx_find_ask(b, id, la[j].price);
            assert(price_before(Side::Ask, la[i].price, la[j].price));
        }
    }
    let lb = b.bids_model();
    assert forall|i: int, j: int, id: u128|
        0 <= i < j < lb.len() && #[trigger] contains_id(lb[i].orders, id) implies !#[trigger]
    contains_id(lb[j].orders, id) by {
        if contains_id(lb[j].orders, id) {
            assert(side_locates(lb, id, lb[i].price));
            lemma_located_idx_find_bid(b, id, lb[i].price);
            assert(side_locates(lb, id, lb[j].price));
            lemma_located_idx_find_bid(b, id, lb[j].price);
            assert(price_before(Side::Bid, lb[i].price, lb[j].price));
        }
    }
}

/// A non-empty well-formed level holds strictly positive volume.
proof fn lemma_sum_positive(orders: Seq<Order>)
    requires
        all_sized(orders),
        orders.len() > 0,
    ensures
        sum_sizes(orders) > 0,
{
    lemma_sum_nonneg(orders.drop_first());
}

/// What a sweep preserves: the aggressor keeps its identity and leaves with
/// exactly the size the side could not supply; the surviving levels are the
/// well-formed suffix of the old ones, losing exactly the residents that some
/// leg fully consumed; and the side's volume drops by what the aggressor
/// gained.
#[verifier::rlimit(100)]
#[verifier::spinoff_prover]
proof fn lemma_sweep_props(ls: Seq<LimitModel>, taker: Order)
    requires
        side_wf(ls, spec_opposite(taker.side)),
        side_ids_unique(ls),
    ensures
        ({
            let sw = spec_sweep(ls, taker);
            let dd = ls.len() - sw.levels.len();
            &&& 0 <= dd <= ls.len()
            &&& sw.taker.id == taker.id
            &&& sw.taker.side == taker.side
            &&& sw.taker.timestamp == taker.timestamp
            &&& sw.taker.size == (if levels_volume(ls) >= taker.size {
                0
            } else {
                taker.size - levels_volume(ls)
            })
            &&& levels_volume(sw.levels) == levels_volume(ls) - (taker.size - sw.taker.size)
            &&& side_wf(sw.levels, spec_opposite(taker.side))
            &&& side_ids_unique(sw.levels)
            &&& forall|j: int|
                0 <= j < sw.levels.len() ==> (#[trigger] sw.levels[j]).price == ls[dd + j].price
            &&& forall|id: u128, p: u64| #[trigger]
                side_locates(sw.levels, id, p) ==> side_locates(ls, id, p)
            &&& forall|id: u128| #[trigger]
                match_removes(sw.matches, taker.side, id) ==> side_contains(ls, id)
            &&& forall|id: u128, p: u64| #[trigger]
                side_locates(ls, id, p) ==> (side_locates(sw.levels, id, p) <==> !match_removes(
                    sw.matches,
                    taker.side,
                    id,
                ))
        }),
    decreases ls.len(),
{
    let sw = spec_sweep(ls, taker);
    let dd = ls.len() - sw.levels.len();
    let opp = spec_opposite(taker.side);
    lemma_levels_volume_nonneg(ls);
    if taker.size == 0 || ls.len() == 0 {
        assert(sw.levels == ls);
        assert forall|id: u128, p: u64| #[trigger]
            side_locates(ls, id, p) implies (side_locates(sw.levels, id, p) <==> !match_removes(
            sw.matches,
            taker.side,
            id,
        )) by {
            if match_removes(sw.matches, taker.side, id) {
                let j = choose|j: int|
                    0 <= j < sw.matches.len() && resident_of(
                        #[trigger] sw.matches[j],
                        taker.side,
                    ).size == 0 && resident_of(sw.matches[j], taker.side).id == id;
            }
        }
    } else {
        let f = spec_fill(ls[0].orders, taker, ls[0].price);
        let rest = spec_sweep(ls.drop_first(), f.taker);
        lemma_fill_props(ls[0].orders, taker, ls[0].price);
        lemma_sum_positive(ls[0].orders);
        let kept: Seq<LimitModel> = if f.remaining.len() == 0 {
            Seq::empty()
        } else {
            seq![LimitModel { price: ls[0].price, orders: f.remaining }]
        };
        assert(sw.matches == f.matches + rest.matches);
        assert(sw.levels == kept + rest.levels);
        if f.remaining.len() > 0 {
            // The aggressor was exhausted inside level 0; everything else is
            // untouched.
            lemma_sum_positive(f.remaining);
            assert(f.taker.size == 0);
            assert(levels_volume(ls) == sum_sizes(ls[0].orders) + levels_volume(ls.drop_first()));
            lemma_levels_volume_nonneg(ls.drop_first());
            assert(levels_volume(ls) >= taker.size);
            assert(rest.levels == ls.drop_first());
            assert(rest.matches == Seq::<Match>::empty());
            assert(sw.matches =~= f.matches);
            assert(sw.levels =~= seq![LimitModel { price: ls[0].price, orders: f.remaining }]
                + ls.drop_first());
            assert(dd == 0);
            assert(levels_volume(sw.levels) == sum_sizes(f.remaining) + levels_volume(
                ls.drop_first(),
            )) by {
                assert(sw.levels.drop_first() =~= ls.drop_first());
            }
            assert forall|j: int| 0 <= j < sw.levels.len() implies (#[trigger] sw.levels[j]).wf()
                && sw.levels[j].orders.len() > 0 && all_side(sw.levels[j].orders, opp) && (
            #[trigger] sw.levels[j]).price == ls[dd + j].price by {
                if j > 0 {
                    assert(sw.levels[j] == ls[j]);
                }
            }
            assert forall|i: int, j: int| 0 <= i < j < sw.levels.len() implies price_before(
                opp,
                (#[trigger] sw.levels[i]).price,
                (#[trigger] sw.levels[j]).price,
            ) by {
                assert(sw.levels[i].price == ls[i].price && sw.levels[j].price == ls[j].price);
            }
            assert forall|i: int, j: int, id: u128|
                0 <= i < j < sw.levels.len() && #[trigger] contains_id(sw.levels[i].orders, id)
                implies !#[trigger] contains_id(sw.levels[j].orders, id) by {
                assert(sw.levels[j].orders == ls[j].orders);
                if i == 0 {
                    if contains_id(sw.levels[j].orders, id) {
                        assert(contains_id(f.remaining, id));
                        assert(contains_id(ls[0].orders, id));
                    }
                } else {
                    assert(sw.levels[i].orders == ls[i].orders);
                }
            }
            assert forall|id: u128, p: u64| #[trigger]
                side_locates(sw.levels, id, p) implies side_locates(ls, id, p) by {
                let i = choose|i: int|
                    0 <= i < sw.levels.len() && (#[trigger] sw.levels[i]).price == p
                        && contains_id(sw.levels[i].orders, id);
                if i == 0 {
                    assert(contains_id(ls[0].orders, id) && ls[0].price == p);
                } else {
                    assert(sw.levels[i] == ls[i]);
                }
            }
            assert forall|id: u128| #[trigger]
                match_removes(sw.matches, taker.side, id) implies side_contains(ls, id) by {
                assert(contains_id(ls[0].orders, id));
                assert(ls[0].price == ls[0].price);
            }
            assert forall|id: u128, p: u64| #[trigger]
                side_locates(ls, id, p) implies (side_locates(sw.levels, id, p)
                <==> !match_removes(sw.matches, taker.side, id)) by {
                let i = choose|i: int|
                    0 <= i < ls.len() && (#[trigger] ls[i]).price == p && contains_id(
                        ls[i].orders,
                        id,
                    );
                if i == 0 {
                    if !match_removes(sw.matches, taker.side, id) {
                        assert(contains_id(f.remaining, id));
                        assert(sw.levels[0].price == p && contains_id(sw.levels[0].orders, id));
                    } else {
                        assert(contains_id(ls[0].orders, id));
                        assert(!contains_id(f.remaining, id));
                        if side_locates(sw.levels, id, p) {
                            let i2 = choose|i2: int|
                                0 <= i2 < sw.levels.len() && (#[trigger] sw.levels[i2]).price == p
                                    && contains_id(sw.levels[i2].orders, id);
                            if i2 == 0 {
                            } else {
                                assert(sw.levels[i2] == ls[i2]);
                                assert(contains_id(ls[i2].orders, id));
                                assert(!contains_id(ls[i2].orders, id));
                            }
                        }
                    }
                } else {
                    // The id rests beyond level 0, which the fill never
                    // touched.
                    assert(!contains_id(ls[0].orders, id));
                    assert(!match_removes(sw.matches, taker.side, id)) by {
                        if match_removes(sw.matches, taker.side, id) {
                            assert(contains_id(ls[0].orders, id));
                        }
                    }
                    assert(sw.levels[i] == ls[i]);
                    assert(side_locates(sw.levels, id, p));
                }
            }
        } else {
            // Level 0 was fully consumed and pruned; recurse on the rest.
            assert(sw.levels =~= rest.levels);
            assert(f.taker.side == taker.side && f.taker.id == taker.id && f.taker.timestamp
                == taker.timestamp);
            assert forall|i: int| 0 <= i < ls.drop_first().len() implies (#[trigger] ls.drop_first()[
                i
            ]).wf() && ls.drop_first()[i].orders.len() > 0 && all_side(
                ls.drop_first()[i].orders,
                opp,
            ) by {
                assert(ls.drop_first()[i] == ls[i + 1]);
            }
            assert forall|i: int, j: int|
                0 <= i < j < ls.drop_first().len() implies price_before(
                opp,
                (#[trigger] ls.drop_first()[i]).price,
                (#[trigger] ls.drop_first()[j]).price,
            ) by {
                assert(ls.drop_first()[i] == ls[i + 1] && ls.drop_first()[j] == ls[j + 1]);
            }
            assert forall|i: int, j: int, id: u128|
                0 <= i < j < ls.drop_first().len() && #[trigger] contains_id(
                    ls.drop_first()[i].orders,
                    id,
                ) implies !#[trigger] contains_id(ls.drop_first()[j].orders, id) by {
                assert(ls.drop_first()[i] == ls[i + 1] && ls.drop_first()[j] == ls[j + 1]);
            }
            lemma_sweep_props(ls.drop_first(), f.taker);
            let dd2 = ls.drop_first().len() - rest.levels.len();
            assert(dd == dd2 + 1);
            assert forall|j: int| 0 <= j < sw.levels.len() implies (#[trigger] sw.levels[j]).price
                == ls[dd + j].price by {
                assert(sw.levels[j] == rest.levels[j]);
                assert(ls.drop_first()[dd2 + j] == ls[dd + j]);
            }
            assert(levels_volume(ls) == sum_sizes(ls[0].orders) + levels_volume(ls.drop_first()));
            lemma_levels_volume_nonneg(ls.drop_first());
            lemma_sum_nonneg(ls[0].orders);
            // Membership: an id in the old side either sat in level 0 (now
            // wholly consumed by legs of `f`) or beyond it (handled by the
            // recursive sweep).
            assert forall|id: u128, p: u64| #[trigger]
                side_locates(sw.levels, id, p) implies side_locates(ls, id, p) by {
                assert(side_locates(rest.levels, id, p));
                assert(side_locates(ls.drop_first(), id, p));
                let i = choose|i: int|
                    0 <= i < ls.drop_first().len() && (#[trigger] ls.drop_first()[i]).price == p
                        && contains_id(ls.drop_first()[i].orders, id);
                assert(ls[i + 1].price == p && contains_id(ls[i + 1].orders, id));
            }
            assert forall|id: u128| #[trigger]
                match_removes(sw.matches, taker.side, id) implies side_contains(ls, id) by {
                let j = choose|j: int|
                    0 <= j < sw.matches.len() && resident_of(
                        #[trigger] sw.matches[j],
                        taker.side,
                    ).size == 0 && resident_of(sw.matches[j], taker.side).id == id;
                if j < f.matches.len() {
                    assert(sw.matches[j] == f.matches[j]);
                    assert(match_removes(f.matches, taker.side, id));
                    assert(contains_id(ls[0].orders, id));
                } else {
                    assert(sw.matches[j] == rest.matches[j - f.matches.len()]);
                    assert(match_removes(rest.matches, taker.side, id));
                    assert(side_contains(ls.drop_first(), id));
                    let i = choose|i: int|
                        0 <= i < ls.drop_first().len() && contains_id(
                            (#[trigger] ls.drop_first()[i]).orders,
                            id,
                        );
                    assert(contains_id(ls[i + 1].orders, id));
                }
            }
            assert forall|id: u128, p: u64| #[trigger]
                side_locates(ls, id, p) implies (side_locates(sw.levels, id, p)
                <==> !match_removes(sw.matches, taker.side, id)) by {
                let i = choose|i: int|
                    0 <= i < ls.len() && (#[trigger] ls[i]).price == p && contains_id(
                        ls[i].orders,
                        id,
                    );
                if i == 0 {
                    // Fully consumed: some leg of `f` removed it, and it can
                    // rest nowhere in the swept side.
                    assert(!contains_id(f.remaining, id));
                    assert(match_removes(f.matches, taker.side, id));
                    let j = choose|j: int|
                        0 <= j < f.matches.len() && resident_of(
                            #[trigger] f.matches[j],
                            taker.side,
                        ).size == 0 && resident_of(f.matches[j], taker.side).id == id;
                    assert(sw.matches[j] == f.matches[j]);
                    assert(match_removes(sw.matches, taker.side, id));
                    assert(!side_locates(sw.levels, id, p)) by {
                        if side_locates(sw.levels, id, p) {
                            assert(side_locates(ls.drop_first(), id, p));
                            let i2 = choose|i2: int|
                                0 <= i2 < ls.drop_first().len() && (#[trigger] ls.drop_first()[
                                    i2
                                ]).price == p && contains_id(ls.drop_first()[i2].orders, id);
                            assert(contains_id(ls[i2 + 1].orders, id));
                            assert(!contains_id(ls[i2 + 1].orders, id));
                        }
                    }
                } else {
                    // Resting beyond level 0: the recursive sweep decides.
                    assert(!contains_id(ls[0].orders, id));
                    assert(ls.drop_first()[i - 1].price == p && contains_id(
                        ls.drop_first()[i - 1].orders,
                        id,
                    ));
                    assert(side_locates(ls.drop_first(), id, p));
                    assert(!match_removes(f.matches, taker.side, id)) by {
                        if match_removes(f.matches, taker.side, id) {
                            assert(contains_id(ls[0].orders, id));
                        }
                    }
                    assert(match_removes(sw.matches, taker.side, id) <==> match_removes(
                        rest.matches,
                        taker.side,
                        id,
                    )) by {
                        if match_removes(sw.matches, taker.side, id) {
                            let j = choose|j: int|
                                0 <= j < sw.matches.len() && resident_of(
                                    #[trigger] sw.matches[j],
                                    taker.side,
                                ).size == 0 && resident_of(sw.matches[j], taker.side).id == id;
                            if j < f.matches.len() {
                                assert(sw.matches[j] == f.matches[j]);
                                assert(match_removes(f.matches, taker.side, id));
                            } else {
                                assert(sw.matches[j] == rest.matches[j - f.matches.len()]);
                            }
                        }
                        if match_removes(rest.matches, taker.side, id) {
                            let j = choose|j: int|
                                0 <= j < rest.matches.len() && resident_of(
                                    #[trigger] rest.matches[j],
                                    taker.side,
                                ).size == 0 && resident_of(rest.matches[j], taker.side).id == id;
                            assert(sw.matches[j + f.matches.len()] == rest.matches[j]);
                        }
                    }
                }
            }
        }
    }
}

/// Sweeps one side's levels with a market order, best price first: each
/// level in turn is filled against the aggressor, emptied levels are pruned,
/// and the ordered legs across all levels are returned.
#[verifier::rlimit(100)]
#[verifier::spinoff_prover]
fn sweep_levels(levels: &mut Vec<Limit>, taker: &mut Order) -> (matches: Vec<Match>)
    requires
        side_wf(models_of(old(levels)@), spec_opposite(old(taker).side)),
        forall|i: int| 0 <= i < old(levels)@.len() ==> (#[trigger] old(levels)@[i]).wf(),
    ensures
        forall|i: int| 0 <= i < final(levels)@.len() ==> (#[trigger] final(levels)@[i]).wf(),
        matches@ == spec_sweep(models_of(old(levels)@), *old(taker)).matches,
        models_of(final(levels)@) == spec_sweep(models_of(old(levels)@), *old(taker)).levels,
        *final(taker) == spec_sweep(models_of(old(levels)@), *old(taker)).taker,
{
    let ghost ls0 = models_of(levels@);
    let ghost taker0 = *taker;
    let mut out: Vec<Limit> = Vec::new();
    let mut matches: Vec<Match> = Vec::new();
    let ghost mut j: int = 0;
    proof {
        assert(ls0.skip(0) =~= ls0);
        assert(models_of(out@) =~= Seq::<LimitModel>::empty());
        assert(Seq::<Match>::empty() + spec_sweep(ls0, taker0).matches =~= spec_sweep(
            ls0,
            taker0,
        ).matches);
        assert(Seq::<LimitModel>::empty() + spec_sweep(ls0, taker0).levels =~= spec_sweep(
            ls0,
            taker0,
        ).levels);
    }
    while levels.len() > 0
        invariant
            0 <= j <= ls0.len(),
            levels@.len() == ls0.len() - j,
            models_of(levels@) == ls0.skip(j),
            side_wf(ls0, spec_opposite(taker0.side)),
            taker.side == taker0.side,
            forall|i: int| 0 <= i < levels@.len() ==> (#[trigger] levels@[i]).wf(),
            forall|i: int| 0 <= i < out@.len() ==> (#[trigger] out@[i]).wf(),
            spec_sweep(ls0, taker0).matches == matches@ + spec_sweep(ls0.skip(j), *taker).matches,
            spec_sweep(ls0, taker0).levels == models_of(out@) + spec_sweep(
                ls0.skip(j),
                *taker,
            ).levels,
            spec_sweep(ls0, taker0).taker == spec_sweep(ls0.skip(j), *taker).taker,
        decreases levels@.len(),
    {
        let ghost pre_taker = *taker;
        let ghost out0 = out@;
        let ghost ms0 = matches@;
        proof {
            lemma_skip_step(ls0, j);
            assert(models_of(levels@)[0] == levels@[0]@);
            assert(ls0.skip(j)[0] == ls0[j]);
        }
        let mut l = levels.remove(0);
        proof {
            assert(models_of(levels@) =~= ls0.skip(j).drop_first());
            assert(models_of(levels@) =~= ls0.skip(j + 1));
            assert(l@ == ls0[j]);
        }
        if taker.size == 0 {
            out.push(l);
            proof {
                assert(models_of(out@) =~= models_of(out0).push(ls0[j]));
                assert(spec_sweep(ls0.skip(j), pre_taker).matches == Seq::<Match>::empty());
                assert(spec_sweep(ls0.skip(j), pre_taker).levels == ls0.skip(j));
                assert(spec_sweep(ls0.skip(j + 1), pre_taker).levels == ls0.skip(j + 1));
                assert(models_of(out0) + ls0.skip(j) =~= models_of(out@) + ls0.skip(j + 1));
                assert(matches@ + Seq::<Match>::empty() =~= matches@);
                j = j + 1;
            }
        } else {
            let ghost fl = spec_fill(ls0[j].orders, pre_taker, ls0[j].price);
            let mut lm = l.fill(taker);
            matches.append(&mut lm);
            let keep = !l.is_empty();
            if keep {
                out.push(l);
            }
            proof {
                assert(ls0[j].wf());
                assert(all_side(ls0[j].orders, spec_opposite(pre_taker.side)));
                lemma_fill_props(ls0[j].orders, pre_taker, ls0[j].price);
                let rest = spec_sweep(ls0.skip(j + 1), *taker);
                assert(l@.orders == fl.remaining);
                assert(*taker == fl.taker);
                assert(spec_sweep(ls0.skip(j), pre_taker).matches == fl.matches + rest.matches);
                assert(spec_sweep(ls0.skip(j), pre_taker).levels == (if fl.remaining.len() == 0 {
                    Seq::<LimitModel>::empty()
                } else {
                    seq![LimitModel { price: ls0[j].price, orders: fl.remaining }]
                }) + rest.levels);
                assert(spec_sweep(ls0.skip(j), pre_taker).taker == rest.taker);
                assert(ms0 + (fl.matches + rest.matches) =~= (ms0 + fl.matches) + rest.matches);
                assert(matches@ =~= ms0 + fl.matches);
                if keep {
                    assert(l@ == LimitModel { price: ls0[j].price, orders: fl.remaining });
                    assert(models_of(out@) =~= models_of(out0).push(l@));
                    assert(models_of(out0) + (seq![l@] + rest.levels) =~= (models_of(out0) + seq![
                        l@,
                    ]) + rest.levels);
                    assert(models_of(out@) =~= models_of(out0) + seq![l@]);
                } else {
                    assert(models_of(out@) == models_of(out0));
                    assert(models_of(out0) + (Seq::<LimitModel>::empty() + rest.levels) =~= models_of(
                        out0,
                    ) + rest.levels);
                }
                j = j + 1;
            }
        }
    }
    proof {
        assert(ls0.skip(ls0.len() as int) =~= Seq::<LimitModel>::empty());
        assert(matches@ + Seq::<Match>::empty() =~= matches@);
        assert(models_of(out@) + Seq::<LimitModel>::empty() =~= models_of(out@));
    }
    *levels = out;
    matches
}

proof fn lemma_spec_pairs_push(price: u64, s: Seq<Order>, o: Order)
    ensures
        spec_pairs(price, s.push(o)) == spec_pairs(price, s).push((price, o)),
    decreases s.len(),
{
    if s.len() == 0 {
        assert(s.push(o)[0] == o);
        assert(s.push(o).drop_first() =~= Seq::<Order>::empty());
        assert(spec_pairs(price, Seq::<Order>::empty()) == Seq::<(u64, Order)>::empty());
        assert(spec_pairs(price, s.push(o)) =~= spec_pairs(price, s).push((price, o)));
    } else {
        assert(s.push(o)[0] == s[0]);
        assert(s.push(o).drop_first() =~= s.drop_first().push(o));
        lemma_spec_pairs_push(price, s.drop_first(), o);
        assert(spec_pairs(price, s.push(o)) =~= spec_pairs(price, s).push((price, o)));
    }
}

proof fn lemma_spec_flatten_push(ls: Seq<LimitModel>, l: LimitModel)
    ensures
        spec_flatten(ls.push(l)) == spec_flatten(ls) + spec_pairs(l.price, l.orders),
    decreases ls.len(),
{
    if ls.len() == 0 {
        assert(ls.push(l)[0] == l);
        assert(ls.push(l).drop_first() =~= Seq::<LimitModel>::empty());
        assert(spec_flatten(Seq::<LimitModel>::empty()) == Seq::<(u64, Order)>::empty());
        assert(spec_flatten(ls.push(l)) =~= spec_flatten(ls) + spec_pairs(l.price, l.orders));
    } else {
        assert(ls.push(l)[0] == ls[0]);
        assert(ls.push(l).drop_first() =~= ls.drop_first().push(l));
        lemma_spec_flatten_push(ls.drop_first(), l);
        assert(spec_pairs(ls[0].price, ls[0].orders) + (spec_flatten(ls.drop_first()) + spec_pairs(
            l.price,
            l.orders,
        )) =~= (spec_pairs(ls[0].price, ls[0].orders) + spec_flatten(ls.drop_first())) + spec_pairs(
            l.price,
            l.orders,
        ));
    }
}

/// Flattens a side's levels into `(price, order)` pairs, best price first
/// and arrival order within a level: a pure read-only projection that shares
/// nothing with the book's own state.
fn flatten_levels(levels: &Vec<Limit>) -> (r: Vec<(u64, Order)>)
    ensures
        r@ == spec_flatten(models_of(levels@)),
{
    let ghost ls = models_of(levels@);
    let mut r: Vec<(u64, Order)> = Vec::new();
    let mut i: usize = 0;
    proof {
        assert(ls.take(0) =~= Seq::<LimitModel>::empty());
    }
    while i < levels.len()
        invariant
            0 <= i <= levels@.len(),
            ls == models_of(levels@),
            r@ == spec_flatten(ls.take(i as int)),
        decreases levels@.len() - i,
    {
        let price = levels[i].price;
        let n = levels[i].orders.len();
        let ghost orders = ls[i as int].orders;
        let mut k: usize = 0;
        proof {
            assert(orders.take(0) =~= Seq::<Order>::empty());
            assert(r@ + Seq::<(u64, Order)>::empty() =~= r@);
        }
        let ghost r0 = r@;
        while k < n
            invariant
                0 <= k <= n,
                ls == models_of(levels@),
                0 <= i < levels@.len(),
                n == orders.len(),
                orders == ls[i as int].orders,
                price == ls[i as int].price,
                r@ == r0 + spec_pairs(price, orders.take(k as int)),
            decreases n - k,
        {
            let o = levels[i].orders[k];
            r.push((price, o));
            proof {
                assert(orders.take(k as int + 1) =~= orders.take(k as int).push(orders[k as int]));
                lemma_spec_pairs_push(price, orders.take(k as int), orders[k as int]);
                assert(r@ =~= r0 + spec_pairs(price, orders.take(k as int + 1)));
            }
            k += 1;
        }
        proof {
            assert(orders.take(n as int) =~= orders);
            assert(ls.take(i as int + 1) =~= ls.take(i as int).push(ls[i as int]));
            lemma_spec_flatten_push(ls.take(i as int), ls[i as int]);
        }
        i += 1;
    }
    proof {
        assert(ls.take(levels@.len() as int) =~= ls);
    }
    r
}

/// Validates that the opposing side holds at least the aggressor's size; a
/// market order that asks for more is rejected before anything is touched.
fn ensure_volume(book: &OrderBook, order: &Order) -> (r: Result<(), OrderBookError>)
    ensures
        r is Ok <==> order.size <= book.side_volume(spec_opposite(order.side)),
        r is Err ==> r == Err::<(), OrderBookError>(
            OrderBookError::NotEnoughVolume {
                side: order.side,
                expected_volume: order.size,
                actual_volume: book.side_volume(spec_opposite(order.side)),
            },
        ),
{
    let total_volume = match order.side {
        Side::Bid => book.ask_total_volume,
        Side::Ask => book.bid_total_volume,
    };
    if order.size > total_volume {
        Err(
            OrderBookError::NotEnoughVolume {
                side: order.side,
                expected_volume: order.size,
                actual_volume: total_volume,
            },
        )
    } else {
        Ok(())
    }
}

/// After a market-order sweep and the purge of fully consumed residents'
/// index entries, the index and the book agree again.
#[verifier::rlimit(100)]
#[verifier::spinoff_prover]
proof fn lemma_index_ok_after_sweep(pre: OrderBook, post: OrderBook, ms: Seq<Match>, tside: Side)
    requires
        pre.wf(),
        idx_ids_unique(post.order_index@),
        forall|k: int|
            0 <= k < post.order_index@.len() ==> pre.order_index@.contains(
                #[trigger] post.order_index@[k],
            ),
        forall|id: u128| #[trigger]
            idx_find(post.order_index@, id) == (if match_removes(ms, tside, id) {
                None::<OrderLocation>
            } else {
                idx_find(pre.order_index@, id)
            }),
        forall|id: u128, p: u64| #[trigger]
            side_locates(post.side_model(spec_opposite(tside)), id, p) ==> side_locates(
                pre.side_model(spec_opposite(tside)),
                id,
                p,
            ),
        forall|id: u128| #[trigger]
            match_removes(ms, tside, id) ==> side_contains(pre.side_model(spec_opposite(tside)), id),
        forall|id: u128, p: u64| #[trigger]
            side_locates(pre.side_model(spec_opposite(tside)), id, p) ==> (side_locates(
                post.side_model(spec_opposite(tside)),
                id,
                p,
            ) <==> !match_removes(ms, tside, id)),
        post.side_model(tside) == pre.side_model(tside),
    ensures
        post.index_ok(),
{
    let swept = spec_opposite(tside);
    assert forall|k: int| 0 <= k < post.order_index@.len() implies side_locates(
        post.side_model((#[trigger] post.order_index@[k]).side),
        post.order_index@[k].id,
        post.order_index@[k].price,
    ) by {
        let e = post.order_index@[k];
        let k0 = choose|k0: int|
            0 <= k0 < pre.order_index@.len() && #[trigger] pre.order_index@[k0] == e;
        assert(side_locates(pre.side_model(e.side), e.id, e.price));
        lemma_idx_find_unique_entry(post.order_index@, k);
        assert(idx_find(post.order_index@, e.id) == Some(e));
        assert(!match_removes(ms, tside, e.id));
        if e.side == swept {
            assert(side_locates(post.side_model(swept), e.id, e.price));
        } else {
            assert(post.side_model(e.side) == pre.side_model(e.side));
        }
    }
    assert forall|i: int, k: int|
        0 <= i < post.asks_model().len() && 0 <= k < post.asks_model()[i].orders.len()
        implies idx_find(post.order_index@, (#[trigger] post.asks_model()[i].orders[k]).id)
        == Some(
        OrderLocation {
            id: post.asks_model()[i].orders[k].id,
            side: Side::Ask,
            price: post.asks_model()[i].price,
        },
    ) by {
        let id = post.asks_model()[i].orders[k].id;
        let p = post.asks_model()[i].price;
        assert(side_locates(post.asks_model(), id, p));
        if swept == Side::Ask {
            assert(side_locates(post.side_model(swept), id, p));
            assert(side_locates(pre.side_model(swept), id, p));
            lemma_located_idx_find_ask(pre, id, p);
            assert(!match_removes(ms, tside, id));
        } else {
            assert(post.asks_model() == pre.asks_model());
            lemma_located_idx_find_ask(pre, id, p);
            assert(!match_removes(ms, tside, id)) by {
                if match_removes(ms, tside, id) {
                    assert(side_contains(pre.side_model(swept), id));
                    let i2 = choose|i2: int|
                        0 <= i2 < pre.bids_model().len() && contains_id(
                            (#[trigger] pre.bids_model()[i2]).orders,
                            id,
                        );
                    assert(side_locates(pre.bids_model(), id, pre.bids_model()[i2].price));
                    lemma_located_idx_find_bid(pre, id, pre.bids_model()[i2].price);
                }
            }
        }
    }
    assert forall|i: int, k: int|
        0 <= i < post.bids_model().len() && 0 <= k < post.bids_model()[i].orders.len()
        implies idx_find(post.order_index@, (#[trigger] post.bids_model()[i].orders[k]).id)
        == Some(
        OrderLocation {
            id: post.bids_model()[i].orders[k].id,
            side: Side::Bid,
            price: post.bids_model()[i].price,
        },
    ) by {
        let id = post.bids_model()[i].orders[k].id;
        let p = post.bids_model()[i].price;
        assert(side_locates(post.bids_model(), id, p));
        if swept == Side::Bid {
            assert(side_locates(post.side_model(swept), id, p));
            assert(side_locates(pre.side_model(swept), id, p));
            lemma_located_idx_find_bid(pre, id, p);
            assert(!match_removes(ms, tside, id));
        } else {
            assert(post.bids_model() == pre.bids_model());
            lemma_located_idx_find_bid(pre, id, p);
            assert(!match_removes(ms, tside, id)) by {
                if match_removes(ms, tside, id) {
                    assert(side_contains(pre.side_model(swept), id));
                    let i2 = choose|i2: int|
                        0 <= i2 < pre.asks_model().len() && contains_id(
                            (#[trigger] pre.asks_model()[i2]).orders,
                            id,
                        );
                    assert(side_locates(pre.asks_model(), id, pre.asks_model()[i2].price));
                    lemma_located_idx_find_ask(pre, id, pre.asks_model()[i2].price);
                }
            }
        }
    }
}

/// The index stays in step with the book when one order is placed: the only
/// change on the placed side is the new resident, and the index gained
/// exactly its entry.
proof fn lemma_index_ok_after_insert(pre: OrderBook, post: OrderBook, price: u64, order: Order)
    requires
        pre.wf(),
        idx_find(pre.order_index@, order.id) is None,
        post.order_index@ == pre.order_index@.push(
            OrderLocation { id: order.id, side: order.side, price },
        ),
        forall|id: u128, p: u64| #[trigger]
            side_locates(post.side_model(order.side), id, p) <==> (side_locates(
                pre.side_model(order.side),
                id,
                p,
            ) || (id == order.id && p == price)),
        post.side_model(spec_opposite(order.side)) == pre.side_model(spec_opposite(order.side)),
    ensures
        post.index_ok(),
{
    let e = OrderLocation { id: order.id, side: order.side, price };
    let pidx = pre.order_index@;
    let tidx = post.order_index@;
    lemma_idx_find_ids(pidx, order.id);
    assert forall|i: int, j: int|
        0 <= i < j < tidx.len() implies (#[trigger] tidx[i]).id != (#[trigger] tidx[j]).id by {
        if j < pidx.len() {
            assert(tidx[i] == pidx[i] && tidx[j] == pidx[j]);
        } else {
            assert(tidx[i] == pidx[i] && tidx[j] == e);
        }
    }
    assert forall|k: int| 0 <= k < tidx.len() implies side_locates(
        post.side_model((#[trigger] tidx[k]).side),
        tidx[k].id,
        tidx[k].price,
    ) by {
        if k < pidx.len() {
            assert(tidx[k] == pidx[k]);
            assert(side_locates(pre.side_model(pidx[k].side), pidx[k].id, pidx[k].price));
            if pidx[k].side == order.side {
                assert(side_locates(pre.side_model(order.side), pidx[k].id, pidx[k].price));
                assert(side_locates(post.side_model(order.side), pidx[k].id, pidx[k].price));
            } else {
                assert(pre.side_model(pidx[k].side) == post.side_model(pidx[k].side));
            }
        } else {
            assert(tidx[k] == e);
            assert(side_locates(post.side_model(order.side), order.id, price));
        }
    }
    assert forall|i: int, k: int|
        0 <= i < post.asks_model().len() && 0 <= k < post.asks_model()[i].orders.len()
        implies idx_find(tidx, (#[trigger] post.asks_model()[i].orders[k]).id) == Some(
        OrderLocation {
            id: post.asks_model()[i].orders[k].id,
            side: Side::Ask,
            price: post.asks_model()[i].price,
        },
    ) by {
        let id = post.asks_model()[i].orders[k].id;
        let p = post.asks_model()[i].price;
        lemma_idx_find_push(pidx, e, id);
        assert(side_locates(post.asks_model(), id, p));
        if order.side == Side::Ask {
            assert(side_locates(post.side_model(order.side), id, p));
            assert(side_locates(pre.side_model(order.side), id, p) || (id == order.id && p
                == price));
            if side_locates(pre.asks_model(), id, p) {
                lemma_located_idx_find_ask(pre, id, p);
            } else {
                assert(id == order.id && p == price);
            }
        } else {
            assert(post.asks_model() == pre.asks_model());
            lemma_located_idx_find_ask(pre, id, p);
        }
    }
    assert forall|i: int, k: int|
        0 <= i < post.bids_model().len() && 0 <= k < post.bids_model()[i].orders.len()
        implies idx_find(tidx, (#[trigger] post.bids_model()[i].orders[k]).id) == Some(
        OrderLocation {
            id: post.bids_model()[i].orders[k].id,
            side: Side::Bid,
            price: post.bids_model()[i].price,
        },
    ) by {
        let id = post.bids_model()[i].orders[k].id;
        let p = post.bids_model()[i].price;
        lemma_idx_find_push(pidx, e, id);
        assert(side_locates(post.bids_model(), id, p));
        if order.side == Side::Bid {
            assert(side_locates(post.side_model(order.side), id, p));
            assert(side_locates(pre.side_model(order.side), id, p) || (id == order.id && p
                == price));
            if side_locates(pre.bids_model(), id, p) {
                lemma_located_idx_find_bid(pre, id, p);
            } else {
                assert(id == order.id && p == price);
            }
        } else {
            assert(post.bids_model() == pre.bids_model());
            lemma_located_idx_find_bid(pre, id, p);
        }
    }
}

/// In a well-formed book, an id located at a price on the ask side has
/// exactly that index entry.
proof fn lemma_located_idx_find_ask(b: OrderBook, id: u128, p: u64)
    requires
        b.wf(),
        side_locates(b.asks_model(), id, p),
    ensures
        idx_find(b.order_index@, id) == Some(OrderLocation { id, side: Side::Ask, price: p }),
{
    let ls = b.asks_model();
    let i = choose|i: int|
        0 <= i < ls.len() && (#[trigger] ls[i]).price == p && contains_id(ls[i].orders, id);
    let k = choose|k: int| 0 <= k < ls[i].orders.len() && (#[trigger] ls[i].orders[k]).id == id;
    assert(idx_find(b.order_index@, ls[i].orders[k].id) == Some(
        OrderLocation { id: ls[i].orders[k].id, side: Side::Ask, price: ls[i].price },
    ));
}

/// In a well-formed book, an id located at a price on the bid side has
/// exactly that index entry.
proof fn lemma_located_idx_find_bid(b: OrderBook, id: u128, p: u64)
    requires
        b.wf(),
        side_locates(b.bids_model(), id, p),
    ensures
        idx_find(b.order_index@, id) == Some(OrderLocation { id, side: Side::Bid, price: p }),
{
    let ls = b.bids_model();
    let i = choose|i: int|
        0 <= i < ls.len() && (#[trigger] ls[i]).price == p && contains_id(ls[i].orders, id);
    let k = choose|k: int| 0 <= k < ls[i].orders.len() && (#[trigger] ls[i].orders[k]).id == id;
    assert(idx_find(b.order_index@, ls[i].orders[k].id) == Some(
        OrderLocation { id: ls[i].orders[k].id, side: Side::Bid, price: ls[i].price },
    ));
}

/// In a well-formed book, an id that the index does not know rests nowhere.
proof fn lemma_absent_id_not_resident(b: OrderBook, id: u128)
    requires
        b.wf(),
        idx_find(b.order_index@, id) is None,
    ensures
        !side_contains(b.asks_model(), id),
        !side_contains(b.bids_model(), id),
{
    if side_contains(b.asks_model(), id) {
        let ls = b.asks_model();
        let i = choose|i: int| 0 <= i < ls.len() && contains_id((#[trigger] ls[i]).orders, id);
        assert(side_locates(ls, id, ls[i].price));
        lemma_located_idx_find_ask(b, id, ls[i].price);
    }
    if side_contains(b.bids_model(), id) {
        let ls = b.bids_model();
        let i = choose|i: int| 0 <= i < ls.len() && contains_id((#[trigger] ls[i]).orders, id);
        assert(side_locates(ls, id, ls[i].price));
        lemma_located_idx_find_bid(b, id, ls[i].price);
    }
}

/// A single-instrument limit order book with an embedded matching engine.
///
/// `asks` is kept in ascending price order (best ask first) and `bids` in
/// descending price order (best bid first); `order_index` maps each resident
/// order id to its side and price, and the two volume counters mirror the
/// total resident size of their side.
pub struct OrderBook {
    pub asks: Vec<Limit>,
    pub bids: Vec<Limit>,
    pub ask_total_volume: u64,
    pub bid_total_volume: u64,
    pub order_index: Vec<OrderLocation>,
}

impl OrderBook {
    /// The models of the ask levels, best (lowest) price first.
    pub open spec fn asks_model(self) -> Seq<LimitModel> {
        models_of(self.asks@)
    }

    /// The models of the bid levels, best (highest) price first.
    pub open spec fn bids_model(self) -> Seq<LimitModel> {
        models_of(self.bids@)
    }

    /// The models of one side's levels.
    pub open spec fn side_model(self, side: Side) -> Seq<LimitModel> {
        match side {
            Side::Ask => self.asks_model(),
            Side::Bid => self.bids_model(),
        }
    }

    /// The aggregate volume counter of one side.
    pub open spec fn side_volume(self, side: Side) -> u64 {
        match side {
            Side::Ask => self.ask_total_volume,
            Side::Bid => self.bid_total_volume,
        }
    }

    /// The index and the book structure agree: entries are unique per id,
    /// every entry points at a level that really holds the order, and every
    /// resident order has exactly its own entry.
    pub open spec fn index_ok(self) -> bool {
        &&& idx_ids_unique(self.order_index@)
        &&& forall|k: int|
            0 <= k < self.order_index@.len() ==> side_locates(
                self.side_model((#[trigger] self.order_index@[k]).side),
                self.order_index@[k].id,
                self.order_index@[k].price,
            )
        &&& forall|i: int, k: int|
            0 <= i < self.asks_model().len() && 0 <= k < self.asks_model()[i].orders.len()
                ==> idx_find(
                self.order_index@,
                (#[trigger] self.asks_model()[i].orders[k]).id,
            ) == Some(
                OrderLocation {
                    id: self.asks_model()[i].orders[k].id,
                    side: Side::Ask,
                    price: self.asks_model()[i].price,
                },
            )
        &&& forall|i: int, k: int|
            0 <= i < self.bids_model().len() && 0 <= k < self.bids_model()[i].orders.len()
                ==> idx_find(
                self.order_index@,
                (#[trigger] self.bids_model()[i].orders[k]).id,
            ) == Some(
                OrderLocation {
                    id: self.bids_model()[i].orders[k].id,
                    side: Side::Bid,
                    price: self.bids_model()[i].price,
                },
            )
    }

    /// Well-formedness of the whole book: both sides well formed, the cached
    /// per-level and per-side volumes exact, and the index in step with the
    /// book structure.
    pub open spec fn wf(self) -> bool {
        &&& side_wf(self.asks_model(), Side::Ask)
        &&& side_wf(self.bids_model(), Side::Bid)
        &&& forall|i: int| 0 <= i < self.asks@.len() ==> (#[trigger] self.asks@[i]).wf()
        &&& forall|i: int| 0 <= i < self.bids@.len() ==> (#[trigger] self.bids@[i]).wf()
        &&& self.ask_total_volume == levels_volume(self.asks_model())
        &&& self.bid_total_volume == levels_volume(self.bids_model())
        &&& self.index_ok()
    }

    /// Whether an order with this id currently rests in the book.
    pub open spec fn spec_contains_order(self, id: u128) -> bool {
        idx_find(self.order_index@, id) is Some
    }

    /// An empty book.
    pub fn new() -> (r: OrderBook)
        ensures
            r.wf(),
            r.asks@.len() == 0,
            r.bids@.len() == 0,
            r.ask_total_volume == 0,
            r.bid_total_volume == 0,
            r.order_index@.len() == 0,
    {
        OrderBook {
            asks: Vec::new(),
            bids: Vec::new(),
            ask_total_volume: 0,
            bid_total_volume: 0,
            order_index: Vec::new(),
        }
    }

    /// Whether an order with the given id currently rests in the book.
    pub fn contains_order(&self, id: u128) -> (r: bool)
        ensures
            r == self.spec_contains_order(id),
    {
        let mut pos: usize = 0;
        while pos < self.order_index.len()
            invariant
                0 <= pos <= self.order_index@.len(),
                forall|i: int| 0 <= i < pos ==> (#[trigger] self.order_index@[i]).id != id,
            decreases self.order_index@.len() - pos,
        {
            if self.order_index[pos].id == id {
                proof {
                    lemma_idx_find_at(self.order_index@, id, pos as int);
                }
                return true;
            }
            pos += 1;
        }
        proof {
            lemma_idx_find_ids(self.order_index@, id);
        }
        false
    }

    /// The read-only snapshot of the ask side: every resident order with its
    /// price, best (lowest) price first and arrival order within a price.
    pub fn ask_orders(&self) -> (r: Vec<(u64, Order)>)
        ensures
            r@ == spec_flatten(self.asks_model()),
    {
        flatten_levels(&self.asks)
    }

    /// The read-only snapshot of the bid side: every resident order with its
    /// price, best (highest) price first and arrival order within a price.
    pub fn bid_orders(&self) -> (r: Vec<(u64, Order)>)
        ensures
            r@ == spec_flatten(self.bids_model()),
    {
        flatten_levels(&self.bids)
    }

    /// Cancels the resident order with the given id: its index entry is
    /// removed first (so a partial failure can never leave a dangling index
    /// entry), then the order leaves its level, the level is pruned if it
    /// empties, and the side's aggregate volume drops by the order's size.
    /// An id that is not resident is a normal, reported error with no
    /// mutation; `LimitNotFound` and `InconsistentState` would signal
    /// internal inconsistency and cannot come from a well-formed book.
    pub fn cancel_order(&mut self, id: u128) -> (r: Result<Order, OrderBookError>)
        requires
            old(self).wf(),
        ensures
            final(self).wf(),
            !old(self).spec_contains_order(id) ==> r == Err::<Order, OrderBookError>(
                OrderBookError::OrderNotFound(id),
            ) && *final(self) == *old(self),
            old(self).spec_contains_order(id) ==> ({
                let loc = idx_find(old(self).order_index@, id)->0;
                let removed = levels_find_order(old(self).side_model(loc.side), loc.price, id);
                &&& removed is Some
                &&& r == Ok::<Order, OrderBookError>(removed->0)
                &&& removed->0.id == id
                &&& final(self).side_model(loc.side) == levels_remove(
                    old(self).side_model(loc.side),
                    loc.price,
                    id,
                )
                &&& final(self).side_model(spec_opposite(loc.side)) == old(self).side_model(
                    spec_opposite(loc.side),
                )
                &&& final(self).side_volume(loc.side) == old(self).side_volume(loc.side)
                    - removed->0.size
                &&& final(self).side_volume(spec_opposite(loc.side)) == old(self).side_volume(
                    spec_opposite(loc.side),
                )
                &&& idx_find(final(self).order_index@, id) is None
                &&& forall|id2: u128|
                    id2 != id ==> #[trigger] idx_find(final(self).order_index@, id2) == idx_find(
                        old(self).order_index@,
                        id2,
                    )
            }),
    {
        let ghost pre = *self;
        let loc = match index_remove(&mut self.order_index, id) {
            None => {
                return Err(OrderBookError::OrderNotFound(id));
            },
            Some(loc) => loc,
        };
        proof {
            lemma_idx_find_ids(pre.order_index@, id);
            let k0 = choose|k0: int|
                0 <= k0 < pre.order_index@.len() && #[trigger] pre.order_index@[k0] == loc;
            assert(side_locates(pre.side_model(loc.side), loc.id, loc.price));
            let ls = pre.side_model(loc.side);
            let i = choose|i: int|
                0 <= i < ls.len() && (#[trigger] ls[i]).price == loc.price && contains_id(
                    ls[i].orders,
                    id,
                );
            assert forall|j: int| 0 <= j < i implies (#[trigger] ls[j]).price != loc.price by {
                assert(price_before(loc.side, ls[j].price, ls[i].price));
            }
            lemma_levels_remove_at(ls, loc.price, id, i);
            crate::limit::lemma_find_order_contains(ls[i].orders, id);
            assert(levels_find_order(ls, loc.price, id) is Some);
        }
        let removed = match loc.side {
            Side::Ask => remove_from_side(&mut self.asks, Side::Ask, loc.price, id),
            Side::Bid => remove_from_side(&mut self.bids, Side::Bid, loc.price, id),
        };
        let order = match removed {
            Err(e) => {
                proof {
                    assert(false);
                }
                return Err(e);
            },
            Ok(order) => order,
        };
        proof {
            match loc.side {
                Side::Ask => lemma_levels_volume_nonneg(models_of(self.asks@)),
                Side::Bid => lemma_levels_volume_nonneg(models_of(self.bids@)),
            }
        }
        match loc.side {
            Side::Ask => {
                self.ask_total_volume = self.ask_total_volume - order.size;
            },
            Side::Bid => {
                self.bid_total_volume = self.bid_total_volume - order.size;
            },
        }
        proof {
            lemma_index_ok_after_remove(pre, *self, loc);
        }
        Ok(order)
    }

    /// Submits a market order. If the opposing side's aggregate volume is
    /// smaller than the order, the call fails with `NotEnoughVolume` and
    /// mutates nothing. Otherwise it sweeps the opposing levels best price
    /// first, fully fills the order, prunes emptied levels and their index
    /// entries, and returns the ordered legs across all swept levels.
    #[verifier::rlimit(100)]
    #[verifier::spinoff_prover]
    pub fn place_market_order(&mut self, order: &mut Order) -> (r: Result<Vec<Match>, OrderBookError>)
        requires
            old(self).wf(),
        ensures
            final(self).wf(),
            old(order).size > old(self).side_volume(spec_opposite(old(order).side)) ==> ({
                &&& r == Err::<Vec<Match>, OrderBookError>(
                    OrderBookError::NotEnoughVolume {
                        side: old(order).side,
                        expected_volume: old(order).size,
                        actual_volume: old(self).side_volume(spec_opposite(old(order).side)),
                    },
                )
                &&& *final(self) == *old(self)
                &&& *final(order) == *old(order)
            }),
            old(order).size <= old(self).side_volume(spec_opposite(old(order).side)) ==> ({
                let sw = spec_sweep(
                    old(self).side_model(spec_opposite(old(order).side)),
                    *old(order),
                );
                &&& r matches Ok(ms) && ms@ == sw.matches
                &&& *final(order) == sw.taker
                &&& final(order).size == 0
                &&& final(self).side_model(spec_opposite(old(order).side)) == sw.levels
                &&& final(self).side_model(old(order).side) == old(self).side_model(
                    old(order).side,
                )
                &&& final(self).side_volume(spec_opposite(old(order).side)) == old(
                    self,
                ).side_volume(spec_opposite(old(order).side)) - old(order).size
                &&& final(self).side_volume(old(order).side) == old(self).side_volume(
                    old(order).side,
                )
                &&& forall|id: u128| #[trigger]
                    idx_find(final(self).order_index@, id) == (if match_removes(
                        sw.matches,
                        old(order).side,
                        id,
                    ) {
                        None::<OrderLocation>
                    } else {
                        idx_find(old(self).order_index@, id)
                    })
            }),
    {
        let ghost pre = *self;
        let ghost taker0 = *order;
        match ensure_volume(self, order) {
            Err(e) => {
                return Err(e);
            },
            Ok(u) => u,
        };
        let side = order.side;
        let initial_size = order.size;
        proof {
            lemma_wf_side_ids_unique(pre);
        }
        let ms = match side {
            Side::Bid => {
                let ms = sweep_levels(&mut self.asks, order);
                proof {
                    lemma_sweep_props(pre.asks_model(), taker0);
                    lemma_levels_volume_nonneg(models_of(self.asks@));
                }
                self.ask_total_volume = self.ask_total_volume - (initial_size - order.size);
                ms
            },
            Side::Ask => {
                let ms = sweep_levels(&mut self.bids, order);
                proof {
                    lemma_sweep_props(pre.bids_model(), taker0);
                    lemma_levels_volume_nonneg(models_of(self.bids@));
                }
                self.bid_total_volume = self.bid_total_volume - (initial_size - order.size);
                ms
            },
        };
        let ghost mid = *self;
        let ghost swm = spec_sweep(pre.side_model(spec_opposite(taker0.side)), taker0);
        proof {
            assert(ms@ == swm.matches);
            assert(ms@.take(0) =~= Seq::<Match>::empty());
            assert forall|k: int|
                0 <= k < self.order_index@.len() implies pre.order_index@.contains(
                #[trigger] self.order_index@[k],
            ) by {
                assert(pre.order_index@[k] == self.order_index@[k]);
            }
        }
        let mut jj: usize = 0;
        while jj < ms.len()
            invariant
                0 <= jj <= ms@.len(),
                side == taker0.side,
                self.asks == mid.asks,
                self.bids == mid.bids,
                self.ask_total_volume == mid.ask_total_volume,
                self.bid_total_volume == mid.bid_total_volume,
                idx_ids_unique(self.order_index@),
                forall|k: int|
                    0 <= k < self.order_index@.len() ==> pre.order_index@.contains(
                        #[trigger] self.order_index@[k],
                    ),
                forall|id: u128| #[trigger]
                    idx_find(self.order_index@, id) == (if match_removes(
                        ms@.take(jj as int),
                        side,
                        id,
                    ) {
                        None::<OrderLocation>
                    } else {
                        idx_find(pre.order_index@, id)
                    }),
            decreases ms@.len() - jj,
        {
            let m = ms[jj];
            let resident = if side == Side::Bid {
                m.ask
            } else {
                m.bid
            };
            proof {
                assert(ms@.take(jj as int + 1) =~= ms@.take(jj as int).push(m));
                lemma_match_removes_push(ms@.take(jj as int), m, side);
                assert(resident == resident_of(m, side));
            }
            if resident.size == 0 {
                let ghost cur = self.order_index@;
                index_remove(&mut self.order_index, resident.id);
                proof {
                    assert forall|k: int|
                        0 <= k < self.order_index@.len() implies pre.order_index@.contains(
                        #[trigger] self.order_index@[k],
                    ) by {
                        assert(cur.contains(self.order_index@[k]));
                        let w = choose|w: int|
                            0 <= w < cur.len() && #[trigger] cur[w] == self.order_index@[k];
                    }
                    assert forall|id: u128| #[trigger]
                        idx_find(self.order_index@, id) == (if match_removes(
                        ms@.take(jj as int + 1),
                        side,
                        id,
                    ) {
                        None::<OrderLocation>
                    } else {
                        idx_find(pre.order_index@, id)
                    }) by {
                        if id == resident.id {
                            assert(match_removes(ms@.take(jj as int + 1), side, id));
                        } else {
                            assert(idx_find(self.order_index@, id) == idx_find(cur, id));
                            assert(match_removes(ms@.take(jj as int + 1), side, id)
                                == match_removes(ms@.take(jj as int), side, id));
                        }
                    }
                }
            } else {
                proof {
                    assert forall|id: u128| #[trigger]
                        idx_find(self.order_index@, id) == (if match_removes(
                        ms@.take(jj as int + 1),
                        side,
                        id,
                    ) {
                        None::<OrderLocation>
                    } else {
                        idx_find(pre.order_index@, id)
                    }) by {
                        assert(match_removes(ms@.take(jj as int + 1), side, id) == match_removes(
                            ms@.take(jj as int),
                            side,
                            id,
                        ));
                    }
                }
            }
            jj += 1;
        }
        proof {
            assert(ms@.take(ms@.len() as int) =~= ms@);
            lemma_index_ok_after_sweep(pre, *self, ms@, side);
        }
        Ok(ms)
    }

    /// Places a resting limit order at the given price: records its location
    /// in the index, adds its size to the side's aggregate volume, and
    /// inserts it into the (fetched or created) level at that price. Always
    /// succeeds; the caller guarantees the order is not already resident and
    /// carries a positive size.
    pub fn place_limit_order(&mut self, price: u64, order: Order)
        requires
            old(self).wf(),
            order.size > 0,
            !old(self).spec_contains_order(order.id),
            old(self).side_volume(order.side) + order.size <= u64::MAX,
        ensures
            final(self).wf(),
            final(self).side_model(order.side) == levels_insert(
                old(self).side_model(order.side),
                order.side,
                price,
                order,
            ),
            final(self).side_model(spec_opposite(order.side)) == old(self).side_model(
                spec_opposite(order.side),
            ),
            final(self).side_volume(order.side) == old(self).side_volume(order.side) + order.size,
            final(self).side_volume(spec_opposite(order.side)) == old(self).side_volume(
                spec_opposite(order.side),
            ),
            final(self).order_index@ == old(self).order_index@.push(
                OrderLocation { id: order.id, side: order.side, price },
            ),
    {
        let ghost pre = *self;
        proof {
            lemma_absent_id_not_resident(pre, order.id);
        }
        self.order_index.push(OrderLocation { id: order.id, side: order.side, price });
        match order.side {
            Side::Ask => {
                self.ask_total_volume = self.ask_total_volume + order.size;
                insert_into_side(&mut self.asks, Side::Ask, price, order);
            },
            Side::Bid => {
                self.bid_total_volume = self.bid_total_volume + order.size;
                insert_into_side(&mut self.bids, Side::Bid, price, order);
            },
        }
        proof {
            lemma_index_ok_after_insert(pre, *self, price, order);
        }
    }
}

} // verus!
