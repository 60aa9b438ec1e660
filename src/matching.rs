use vstd::prelude::*;

use crate::book::{
    amount_at, fill_side, insert_order, lemma_fill_side_conserves, lemma_sum_amount_concat,
    lemma_sum_amount_nonneg, level_orders, levels_view, match_side, order_ok, rest_order, side_wf,
    sum_amount, sum_remaining, LevelView, PriceLevel,
};
use crate::lemmas::{lemma_fill_side_wf, lemma_insert_order_wf, lemma_side_wf_grow};
use crate::models::{Order, PartialOrder, Receipt, Side};

verus! {

/// A single-instrument order book that matches incoming orders under
/// price-then-time priority.
#[derive(Debug)]
pub struct MatchingEngine {
    /// The last sequence number handed out
    ///
    /// Orders with a lower sequence number have priority over orders with
    /// a higher sequence number at the same price.
    pub ordinal: u64,
    /// The buy side of the book, by ascending price (best bid last)
    pub bids: Vec<PriceLevel>,
    /// The sell side of the book, by descending price (best ask last)
    pub asks: Vec<PriceLevel>,
    /// Every receipt issued so far, for record keeping
    pub matches: Vec<Receipt>,
}

/// The mathematical state of a [`MatchingEngine`]: its counter and both
/// sides of the book.
pub struct EngineView {
    pub ordinal: u64,
    pub bids: Seq<LevelView>,
    pub asks: Seq<LevelView>,
}

impl View for MatchingEngine {
    type V = EngineView;

    open spec fn view(&self) -> EngineView {
        EngineView { ordinal: self.ordinal, bids: levels_view(self.bids@), asks: levels_view(self.asks@) }
    }
}

impl EngineView {
    /// The levels of the side that orders of side `side` rest on.
    pub open spec fn own_side(self, side: Side) -> Seq<LevelView> {
        match side {
            Side::Buy => self.bids,
            Side::Sell => self.asks,
        }
    }

    /// The levels that orders of side `side` are matched against.
    pub open spec fn opposite_side(self, side: Side) -> Seq<LevelView> {
        self.own_side(side.opposite())
    }

    /// Both sides are well-formed, and no resting order has a sequence number
    /// above the counter.
    pub open spec fn wf(self) -> bool {
        &&& side_wf(self.bids, Side::Buy, self.ordinal)
        &&& side_wf(self.asks, Side::Sell, self.ordinal)
    }

    /// The total unmatched quantity resting at `price` on side `side`.
    pub open spec fn amount_at(self, price: u64, side: Side) -> int {
        sum_remaining(level_orders(self.own_side(side), price))
    }
}

/// The outcome of matching `order` against the opposite side of `e`:
/// the fills, the opposite side afterwards, and the units left unmatched.
pub open spec fn match_outcome(e: EngineView, order: Order) -> (Seq<PartialOrder>, Seq<LevelView>, nat) {
    fill_side(order.signer@, order.side, order.price, order.amount as nat, e.opposite_side(order.side))
}

/// The resting order that `order` leaves behind when `left` of its units
/// were not matched; it carries sequence number `ordinal`.
pub open spec fn resting_part(order: Order, ordinal: u64, left: nat) -> PartialOrder {
    PartialOrder {
        price: order.price,
        amount: order.amount,
        remaining: left as u64,
        side: order.side,
        signer: order.signer,
        ordinal,
    }
}

/// The state after processing `order` in state `e`, and the fills of its
/// receipt.
pub open spec fn step(e: EngineView, order: Order) -> (EngineView, Seq<PartialOrder>) {
    let ordinal = (e.ordinal + 1) as u64;
    let m = match_outcome(e, order);
    let own = e.own_side(order.side);
    let own_after = if m.2 > 0 {
        insert_order(own, resting_part(order, ordinal, m.2))
    } else {
        own
    };
    let after = match order.side {
        Side::Buy => EngineView { ordinal, bids: own_after, asks: m.1 },
        Side::Sell => EngineView { ordinal, bids: m.1, asks: own_after },
    };
    (after, m.0)
}

/// Processing an order keeps the book well-formed.
pub proof fn lemma_step_wf(e: EngineView, order: Order)
    requires
        e.wf(),
        e.ordinal < u64::MAX,
    ensures
        step(e, order).0.wf(),
{
    let ordinal = (e.ordinal + 1) as u64;
    let m = match_outcome(e, order);
    let opp = e.opposite_side(order.side);
    let own = e.own_side(order.side);
    lemma_fill_side_wf(order.signer@, order.side, order.price, order.amount as nat, opp, e.ordinal, false, 0);
    lemma_side_wf_grow(m.1, order.side.opposite(), e.ordinal, ordinal);
    lemma_fill_side_conserves(order.signer@, order.side, order.price, order.amount as nat, opp);
    lemma_sum_amount_nonneg(m.0);
    if m.2 > 0 {
        let o = resting_part(order, ordinal, m.2);
        assert(order_ok(o, o.price, o.side, o.ordinal));
        lemma_insert_order_wf(own, o, e.ordinal, false, 0);
    } else {
        lemma_side_wf_grow(own, order.side, e.ordinal, ordinal);
    }
}

impl Default for MatchingEngine {
    fn default() -> (r: Self)
        ensures
            r@.wf(),
            r@ == (EngineView { ordinal: 0, bids: Seq::empty(), asks: Seq::empty() }),
            r.matches@.len() == 0,
    {
        MatchingEngine::new()
    }
}

impl MatchingEngine {
    /// Creates an engine with an empty book and no receipts.
    pub fn new() -> (r: Self)
        ensures
            r@.wf(),
            r@ == (EngineView { ordinal: 0, bids: Seq::empty(), asks: Seq::empty() }),
            r.matches@.len() == 0,
    {
        let r = MatchingEngine { ordinal: 0, bids: Vec::new(), asks: Vec::new(), matches: Vec::new() };
        assert(r@.bids =~= Seq::empty());
        assert(r@.asks =~= Seq::empty());
        r
    }

    /// Returns the total unmatched amount of all the resting orders at a
    /// price level of either side of the book; 0 when no order rests there.
    pub fn get_amount_at_price_level(&self, price: u64, side: Side) -> (r: u128)
        ensures
            r == self@.amount_at(price, side),
    {
        match side {
            Side::Buy => amount_at(&self.bids, price),
            Side::Sell => amount_at(&self.asks, price),
        }
    }

    /// The units matched by the fills of `receipt`.
    fn get_matched_amount(receipt: &Receipt) -> (r: u64)
        requires
            sum_amount(receipt.matches@) <= u64::MAX,
        ensures
            r == sum_amount(receipt.matches@),
    {
        let fills = &receipt.matches;
        let mut total: u64 = 0;
        let mut i: usize = 0;
        while i < fills.len()
            invariant
                i <= fills.len(),
                total == sum_amount(fills@.take(i as int)),
                sum_amount(fills@) <= u64::MAX,
            decreases fills.len() - i,
        {
            proof {
                assert(fills@.take(i as int + 1).drop_last() =~= fills@.take(i as int));
                lemma_sum_amount_concat(fills@.take(i as int + 1), fills@.skip(i as int + 1));
                assert(fills@.take(i as int + 1) + fills@.skip(i as int + 1) =~= fills@);
                lemma_sum_amount_nonneg(fills@.skip(i as int + 1));
            }
            total = total + fills[i].amount;
            i = i + 1;
        }
        assert(fills@.take(i as int) =~= fills@);
        total
    }

    /// Matches `order` against the opposite side's `levels` and returns the
    /// receipt, numbered `ordinal`.
    fn match_order(order: &PartialOrder, levels: &mut Vec<PriceLevel>, ordinal: u64) -> (r: Receipt)
        ensures
            ({
                let m = fill_side(order.signer@, order.side, order.price, order.remaining as nat, levels_view(old(levels)@));
                &&& r.ordinal == ordinal
                &&& r.matches@ == m.0
                &&& levels_view(final(levels)@) == m.1
            }),
    {
        let res = match_side(&order.signer, order.side, order.price, order.remaining, levels);
        Receipt { ordinal, matches: res.0 }
    }

    /// Processes an incoming [`Order`] and returns its [`Receipt`].
    ///
    /// The order is matched against the opposite side of the book; what is
    /// left of it rests on its own side. The receipt is also kept in the log.
    /// An order for 0 units matches nothing and rests nothing, but still
    /// takes a sequence number.
    pub fn process(&mut self, order: Order) -> (r: Receipt)
        requires
            old(self)@.wf(),
            old(self).ordinal < u64::MAX,
        ensures
            final(self)@.wf(),
            final(self)@ == step(old(self)@, order).0,
            r.matches@ == step(old(self)@, order).1,
            r.ordinal == final(self).ordinal,
            final(self).matches@.len() == old(self).matches@.len() + 1,
            forall|i: int| 0 <= i < old(self).matches@.len() ==> final(self).matches@[i] == old(self).matches@[i],
            final(self).matches@.last().ordinal == r.ordinal,
            final(self).matches@.last().matches@ == r.matches@,
    {
        let ghost e = self@;
        proof {
            lemma_step_wf(e, order);
        }
        self.ordinal = self.ordinal + 1;
        let ordinal = self.ordinal;
        let original_amount = order.amount;
        let mut partial = order.into_partial_order(ordinal, original_amount);
        let receipt = match partial.side {
            Side::Buy => MatchingEngine::match_order(&partial, &mut self.asks, ordinal),
            Side::Sell => MatchingEngine::match_order(&partial, &mut self.bids, ordinal),
        };
        proof {
            lemma_fill_side_conserves(order.signer@, order.side, order.price, order.amount as nat, e.opposite_side(order.side));
        }
        let matched = MatchingEngine::get_matched_amount(&receipt);
        if matched < original_amount {
            partial.remaining = original_amount - matched;
            match partial.side {
                Side::Buy => rest_order(&mut self.bids, partial),
                Side::Sell => rest_order(&mut self.asks, partial),
            }
        }
        self.matches.push(receipt.snapshot());
        receipt
    }
}

} // verus!
