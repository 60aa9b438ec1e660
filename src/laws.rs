use vstd::prelude::*;

use crate::book::{
    by_arrival, crosses, fill_level, fill_side, insert_order, level_orders, level_wf,
    lemma_fill_side_conserves, lemma_sum_amount_nonneg, order_ok, side_wf, stored_before,
    sum_amount, sum_remaining, LevelView,
};
use crate::lemmas::{lemma_fill_level_wf, lemma_fill_side_wf};
use crate::matching::{lemma_step_wf, match_outcome, resting_part, step, EngineView};
use crate::models::{reduced, Order, PartialOrder, Side};

verus! {

/// The state of an engine with an empty book that has processed nothing.
pub open spec fn empty_book() -> EngineView {
    EngineView { ordinal: 0, bids: Seq::empty(), asks: Seq::empty() }
}

/// The state after processing `orders`, in order, from state `e`.
pub open spec fn replay(e: EngineView, orders: Seq<Order>) -> EngineView
    decreases orders.len(),
{
    if orders.len() == 0 {
        e
    } else {
        step(replay(e, orders.drop_last()), orders.last()).0
    }
}

/// Sequence numbers count the calls: after `k` orders the counter is `k`,
/// so the order of the `k`-th call (counting from 1) gets sequence number
/// `k`, which its receipt carries.
pub proof fn law_ordinals_count_calls(orders: Seq<Order>)
    requires
        orders.len() < u64::MAX,
    ensures
        forall|k: int| 0 <= k <= orders.len() ==> #[trigger] replay(empty_book(), orders.take(k)).ordinal == k,
        forall|k: int| 0 <= k < orders.len() ==> (#[trigger] step(replay(empty_book(), orders.take(k)), orders[k]).0).ordinal == k + 1,
    decreases orders.len(),
{
    if orders.len() == 0 {
        assert(orders.take(0) =~= orders);
    } else {
        let init = orders.drop_last();
        law_ordinals_count_calls(init);
        assert forall|k: int| 0 <= k <= orders.len() implies #[trigger] replay(empty_book(), orders.take(k)).ordinal == k by {
            if k < orders.len() {
                assert(orders.take(k) =~= init.take(k));
            } else {
                assert(orders.take(k) =~= orders);
                assert(init.take(init.len() as int) =~= init);
                assert(replay(empty_book(), init.take(init.len() as int)).ordinal == init.len());
                assert(replay(empty_book(), orders) == step(replay(empty_book(), init), orders.last()).0);
            }
        }
    }
}

/// Every state reached from an empty book is well-formed: levels are never
/// empty, each price has one level, and orders keep arrival order.
pub proof fn law_replay_wf(orders: Seq<Order>)
    requires
        orders.len() < u64::MAX,
    ensures
        replay(empty_book(), orders).wf(),
    decreases orders.len(),
{
    if orders.len() > 0 {
        let init = orders.drop_last();
        law_replay_wf(init);
        law_ordinals_count_calls(init);
        assert(init.take(init.len() as int) =~= init);
        lemma_step_wf(replay(empty_book(), init), orders.last());
    }
}

proof fn lemma_fill_level_fills(signer: Seq<char>, price: u64, want: nat, orders: Seq<PartialOrder>, lo: int)
    requires
        by_arrival(orders),
        forall|k: int| 0 <= k < orders.len() ==> (#[trigger] orders[k]).ordinal > lo,
    ensures
        ({
            let f = fill_level(signer, price, want, orders).0;
            &&& forall|k: int| 0 <= k < f.len() ==> (#[trigger] f[k]).price == price
            &&& forall|k: int| 0 <= k < f.len() ==> (#[trigger] f[k]).signer@ != signer
            &&& forall|k: int| 0 <= k < f.len() ==> (#[trigger] f[k]).ordinal > lo
            &&& forall|a: int, b: int| 0 <= a < b < f.len() ==> f[a].ordinal < f[b].ordinal
        }),
    decreases orders.len(),
{
    if orders.len() == 0 || want == 0 {
    } else {
        let o = orders.last();
        let init = orders.drop_last();
        assert(o == orders[orders.len() - 1]);
        assert forall|k: int| 0 <= k < init.len() implies (#[trigger] init[k]).ordinal > o.ordinal by {
            assert(init[k] == orders[k]);
        }
        if o.signer@ == signer {
            lemma_fill_level_fills(signer, price, want, init, o.ordinal as int);
        } else {
            let m: u64 = if want < o.remaining { want as u64 } else { o.remaining };
            lemma_fill_level_fills(signer, price, (want - m) as nat, init, o.ordinal as int);
            let rec = fill_level(signer, price, (want - m) as nat, init).0;
            let f = fill_level(signer, price, want, orders).0;
            assert forall|k: int| 0 <= k < f.len() implies (#[trigger] f[k]).ordinal > lo by {
                if k > 0 {
                    assert(f[k] == rec[k - 1]);
                }
            }
            assert forall|a: int, b: int| 0 <= a < b < f.len() implies f[a].ordinal < f[b].ordinal by {
                assert(f[b] == rec[b - 1]);
                if a > 0 {
                    assert(f[a] == rec[a - 1]);
                }
            }
        }
    }
}

/// The fills of matching against a well-formed side: each is at a price
/// that crosses the limit, none is the incoming signer's own, and fills at
/// one price come by increasing sequence number. When every level was
/// stored before `cap`, so is every fill's price.
proof fn lemma_fill_side_fills(
    signer: Seq<char>,
    side: Side,
    limit: u64,
    want: nat,
    levels: Seq<LevelView>,
    bound: u64,
    capped: bool,
    cap: u64,
)
    requires
        side_wf(levels, side.opposite(), bound),
        capped ==> forall|i: int| 0 <= i < levels.len() ==> stored_before(side.opposite(), #[trigger] levels[i].price, cap),
    ensures
        ({
            let f = fill_side(signer, side, limit, want, levels).0;
            &&& forall|k: int| 0 <= k < f.len() ==> crosses(side, limit, (#[trigger] f[k]).price)
            &&& forall|k: int| 0 <= k < f.len() ==> (#[trigger] f[k]).signer@ != signer
            &&& capped ==> forall|k: int| 0 <= k < f.len() ==> stored_before(side.opposite(), (#[trigger] f[k]).price, cap)
            &&& forall|a: int, b: int| 0 <= a < b < f.len() && f[a].price == f[b].price ==> f[a].ordinal < f[b].ordinal
        }),
    decreases levels.len(),
{
    let sd = side.opposite();
    if levels.len() == 0 || want == 0 || !crosses(side, limit, levels.last().price) {
    } else {
        let l = levels.last();
        let init = levels.drop_last();
        assert(l == levels[levels.len() - 1]);
        assert(level_wf(l, sd, bound));
        let r = fill_level(signer, l.price, want, l.orders);
        lemma_fill_level_fills(signer, l.price, want, l.orders, -1);
        assert(side_wf(init, sd, bound)) by {
            assert forall|i: int| 0 <= i < init.len() implies level_wf(#[trigger] init[i], sd, bound) by {
                assert(init[i] == levels[i]);
            }
            assert forall|i: int, j: int| 0 <= i < j < init.len() implies stored_before(sd, #[trigger] init[i].price, #[trigger] init[j].price) by {
                assert(init[i] == levels[i]);
                assert(init[j] == levels[j]);
            }
        }
        assert forall|i: int| 0 <= i < init.len() implies stored_before(sd, #[trigger] init[i].price, l.price) by {
            assert(init[i] == levels[i]);
        }
        lemma_fill_side_fills(signer, side, limit, r.2, init, bound, true, l.price);
        let rs = fill_side(signer, side, limit, r.2, init);
        if capped {
            assert forall|i: int| 0 <= i < init.len() implies stored_before(sd, #[trigger] init[i].price, cap) by {
                assert(init[i] == levels[i]);
            }
            lemma_fill_side_fills(signer, side, limit, r.2, init, bound, true, cap);
            assert(stored_before(sd, l.price, cap));
        }
        let f = r.0 + rs.0;
        assert forall|k: int| 0 <= k < f.len() implies crosses(side, limit, (#[trigger] f[k]).price) && f[k].signer@ != signer
            && (capped ==> stored_before(sd, f[k].price, cap)) by {
            if k >= r.0.len() {
                assert(f[k] == rs.0[k - r.0.len()]);
            }
        }
        assert forall|a: int, b: int| 0 <= a < b < f.len() && f[a].price == f[b].price implies f[a].ordinal < f[b].ordinal by {
            if b >= r.0.len() {
                assert(f[b] == rs.0[b - r.0.len()]);
                if a >= r.0.len() {
                    assert(f[a] == rs.0[a - r.0.len()]);
                } else {
                    assert(f[a] == r.0[a]);
                    assert(stored_before(sd, f[b].price, l.price));
                }
            }
        }
    }
}

/// Price priority: every fill of an incoming buy is at an ask price at or
/// below its limit, and every fill of an incoming sell at a bid price at or
/// above its limit.
pub proof fn law_price_priority(e: EngineView, order: Order)
    requires
        e.wf(),
    ensures
        forall|k: int| 0 <= k < step(e, order).1.len() ==> crosses(order.side, order.price, (#[trigger] step(e, order).1[k]).price),
{
    lemma_fill_side_fills(order.signer@, order.side, order.price, order.amount as nat, e.opposite_side(order.side), e.ordinal, false, 0);
}

/// Time priority: among the fills of one order at one price, an order that
/// arrived earlier is matched before one that arrived later.
pub proof fn law_time_priority(e: EngineView, order: Order)
    requires
        e.wf(),
    ensures
        forall|a: int, b: int| 0 <= a < b < step(e, order).1.len() && step(e, order).1[a].price == step(e, order).1[b].price
            ==> step(e, order).1[a].ordinal < step(e, order).1[b].ordinal,
{
    lemma_fill_side_fills(order.signer@, order.side, order.price, order.amount as nat, e.opposite_side(order.side), e.ordinal, false, 0);
}

/// No self-trade: no fill of an order is against an order of its own signer.
pub proof fn law_no_self_fill(e: EngineView, order: Order)
    requires
        e.wf(),
    ensures
        forall|k: int| 0 <= k < step(e, order).1.len() ==> (#[trigger] step(e, order).1[k]).signer@ != order.signer@,
{
    lemma_fill_side_fills(order.signer@, order.side, order.price, order.amount as nat, e.opposite_side(order.side), e.ordinal, false, 0);
}

proof fn lemma_level_orders_absent(levels: Seq<LevelView>, p: u64)
    requires
        forall|i: int| 0 <= i < levels.len() ==> (#[trigger] levels[i]).price != p,
    ensures
        level_orders(levels, p) == Seq::<PartialOrder>::empty(),
    decreases levels.len(),
{
    if levels.len() > 0 {
        let d = levels.drop_first();
        assert forall|i: int| 0 <= i < d.len() implies (#[trigger] d[i]).price != p by {
            assert(d[i] == levels[i + 1]);
        }
        lemma_level_orders_absent(d, p);
    }
}

proof fn lemma_level_orders_push_other(levels: Seq<LevelView>, l: LevelView, p: u64)
    requires
        l.price != p,
    ensures
        level_orders(levels.push(l), p) == level_orders(levels, p),
    decreases levels.len(),
{
    let t = levels.push(l);
    if levels.len() == 0 {
        assert(t[0] == l);
        assert(t.drop_first() =~= Seq::<LevelView>::empty());
        assert(level_orders(t.drop_first(), p) == Seq::<PartialOrder>::empty());
        assert(level_orders(levels, p) == Seq::<PartialOrder>::empty());
    } else {
        assert(t[0] == levels[0]);
        assert(t.drop_first() =~= levels.drop_first().push(l));
        lemma_level_orders_push_other(levels.drop_first(), l, p);
    }
}

proof fn lemma_level_orders_push_new(levels: Seq<LevelView>, l: LevelView)
    requires
        forall|i: int| 0 <= i < levels.len() ==> (#[trigger] levels[i]).price != l.price,
    ensures
        level_orders(levels.push(l), l.price) == l.orders,
    decreases levels.len(),
{
    let t = levels.push(l);
    if levels.len() > 0 {
        let d = levels.drop_first();
        assert(t.drop_first() =~= d.push(l));
        assert forall|i: int| 0 <= i < d.len() implies (#[trigger] d[i]).price != l.price by {
            assert(d[i] == levels[i + 1]);
        }
        lemma_level_orders_push_new(d, l);
    }
}

/// The level at the price of an order that comes to rest gains exactly that
/// order, at its front.
proof fn lemma_level_orders_insert(levels: Seq<LevelView>, o: PartialOrder, bound: u64)
    requires
        side_wf(levels, o.side, bound),
    ensures
        level_orders(insert_order(levels, o), o.price) == seq![o] + level_orders(levels, o.price),
    decreases levels.len(),
{
    let sd = o.side;
    if levels.len() == 0 {
        assert(seq![o] + Seq::<PartialOrder>::empty() =~= seq![o]);
    } else if levels[0].price == o.price {
    } else if stored_before(sd, o.price, levels[0].price) {
        assert forall|i: int| 0 <= i < levels.len() implies (#[trigger] levels[i]).price != o.price by {
            if i > 0 {
                assert(stored_before(sd, levels[0].price, levels[i].price));
            }
        }
        lemma_level_orders_absent(levels, o.price);
        assert(seq![o] + Seq::<PartialOrder>::empty() =~= seq![o]);
    } else {
        let d = levels.drop_first();
        assert(side_wf(d, sd, bound)) by {
            assert forall|i: int| 0 <= i < d.len() implies level_wf(#[trigger] d[i], sd, bound) by {
                assert(d[i] == levels[i + 1]);
            }
            assert forall|i: int, j: int| 0 <= i < j < d.len() implies stored_before(sd, #[trigger] d[i].price, #[trigger] d[j].price) by {
                assert(d[i] == levels[i + 1]);
                assert(d[j] == levels[j + 1]);
            }
        }
        lemma_level_orders_insert(d, o, bound);
        let out = insert_order(levels, o);
        assert(out.drop_first() =~= insert_order(d, o));
    }
}

proof fn lemma_sum_remaining_front(o: PartialOrder, rest: Seq<PartialOrder>)
    ensures
        sum_remaining(seq![o] + rest) == o.remaining + sum_remaining(rest),
    decreases rest.len(),
{
    if rest.len() == 0 {
        let t = seq![o] + rest;
        assert(t.drop_last() =~= Seq::<PartialOrder>::empty());
        assert(t.last() == o);
        assert(sum_remaining(t.drop_last()) == 0);
        assert(rest =~= Seq::<PartialOrder>::empty());
    } else {
        lemma_sum_remaining_front(o, rest.drop_last());
        assert((seq![o] + rest).drop_last() =~= seq![o] + rest.drop_last());
        assert((seq![o] + rest).last() == rest.last());
    }
}

/// Quantity is conserved: the fills of an order never add up to more than
/// its amount, and whatever they leave unmatched is exactly what the order
/// adds to the resting quantity at its price on its own side; a fully
/// filled order leaves its own side as it was.
pub proof fn law_fills_within_amount(e: EngineView, order: Order)
    requires
        e.wf(),
        e.ordinal < u64::MAX,
    ensures
        sum_amount(step(e, order).1) <= order.amount,
        sum_amount(step(e, order).1) < order.amount ==> step(e, order).0.amount_at(order.price, order.side)
            == e.amount_at(order.price, order.side) + (order.amount - sum_amount(step(e, order).1)),
        sum_amount(step(e, order).1) == order.amount ==> step(e, order).0.own_side(order.side) == e.own_side(order.side),
{
    let m = match_outcome(e, order);
    lemma_fill_side_conserves(order.signer@, order.side, order.price, order.amount as nat, e.opposite_side(order.side));
    lemma_sum_amount_nonneg(m.0);
    if m.2 > 0 {
        let ordinal = (e.ordinal + 1) as u64;
        let o = resting_part(order, ordinal, m.2);
        let own = e.own_side(order.side);
        lemma_level_orders_insert(own, o, e.ordinal);
        lemma_sum_remaining_front(o, level_orders(own, order.price));
        assert(step(e, order).0.own_side(order.side) == insert_order(own, o));
        assert(o.remaining == m.2);
    }
}

/// Matching within a level keeps every order of the incoming signer.
proof fn lemma_fill_level_keeps_own(signer: Seq<char>, price: u64, want: nat, orders: Seq<PartialOrder>, x: PartialOrder)
    requires
        orders.contains(x),
        x.signer@ == signer,
    ensures
        fill_level(signer, price, want, orders).1.contains(x),
    decreases orders.len(),
{
    if orders.len() == 0 || want == 0 {
    } else {
        let o = orders.last();
        let init = orders.drop_last();
        let k = choose|k: int| 0 <= k < orders.len() && orders[k] == x;
        if k < orders.len() - 1 {
            assert(init[k] == x);
            if o.signer@ == signer {
                lemma_fill_level_keeps_own(signer, price, want, init, x);
                let r = fill_level(signer, price, want, init);
                let j = choose|j: int| 0 <= j < r.1.len() && r.1[j] == x;
                assert(r.1.push(o)[j] == x);
            } else {
                let m: u64 = if want < o.remaining { want as u64 } else { o.remaining };
                lemma_fill_level_keeps_own(signer, price, (want - m) as nat, init, x);
                let r = fill_level(signer, price, (want - m) as nat, init);
                let j = choose|j: int| 0 <= j < r.1.len() && r.1[j] == x;
                assert(r.1.push(reduced(o, m))[j] == x);
            }
        } else {
            let r = fill_level(signer, price, want, init);
            assert(r.1.push(o)[r.1.len() as int] == x);
        }
    }
}

/// Matching against a well-formed side keeps every order of the incoming
/// signer in the level at its price.
proof fn lemma_fill_side_keeps_own(
    signer: Seq<char>,
    side: Side,
    limit: u64,
    want: nat,
    levels: Seq<LevelView>,
    bound: u64,
    p: u64,
    x: PartialOrder,
)
    requires
        side_wf(levels, side.opposite(), bound),
        level_orders(levels, p).contains(x),
        x.signer@ == signer,
    ensures
        level_orders(fill_side(signer, side, limit, want, levels).1, p).contains(x),
    decreases levels.len(),
{
    let sd = side.opposite();
    if levels.len() == 0 || want == 0 || !crosses(side, limit, levels.last().price) {
    } else {
        let l = levels.last();
        let init = levels.drop_last();
        assert(levels == init.push(l));
        assert(l == levels[levels.len() - 1]);
        let r = fill_level(signer, l.price, want, l.orders);
        assert(side_wf(init, sd, bound)) by {
            assert forall|i: int| 0 <= i < init.len() implies level_wf(#[trigger] init[i], sd, bound) by {
                assert(init[i] == levels[i]);
            }
            assert forall|i: int, j: int| 0 <= i < j < init.len() implies stored_before(sd, #[trigger] init[i].price, #[trigger] init[j].price) by {
                assert(init[i] == levels[i]);
                assert(init[j] == levels[j]);
            }
        }
        assert forall|i: int| 0 <= i < init.len() implies stored_before(sd, #[trigger] init[i].price, l.price) by {
            assert(init[i] == levels[i]);
        }
        lemma_fill_side_wf(signer, side, limit, r.2, init, bound, true, l.price);
        let rs = fill_side(signer, side, limit, r.2, init);
        let nl = LevelView { price: l.price, orders: r.1 };
        if p == l.price {
            assert forall|i: int| 0 <= i < init.len() implies (#[trigger] init[i]).price != p by {
                assert(stored_before(sd, init[i].price, l.price));
            }
            lemma_level_orders_push_new(init, l);
            lemma_fill_level_keeps_own(signer, l.price, want, l.orders, x);
            assert forall|i: int| 0 <= i < rs.1.len() implies (#[trigger] rs.1[i]).price != p by {
                assert(stored_before(sd, rs.1[i].price, l.price));
            }
            lemma_level_orders_push_new(rs.1, nl);
        } else {
            lemma_level_orders_push_other(init, l, p);
            lemma_fill_side_keeps_own(signer, side, limit, r.2, init, bound, p, x);
            lemma_level_orders_push_other(rs.1, nl, p);
        }
    }
}

/// No self-trade loses an order: every resting order of the incoming
/// signer on the opposite side is still there afterwards, unchanged and in
/// the level at its price, so it keeps its sequence number and priority.
pub proof fn law_self_orders_kept(e: EngineView, order: Order, p: u64, x: PartialOrder)
    requires
        e.wf(),
        level_orders(e.opposite_side(order.side), p).contains(x),
        x.signer@ == order.signer@,
    ensures
        level_orders(step(e, order).0.opposite_side(order.side), p).contains(x),
{
    lemma_fill_side_keeps_own(order.signer@, order.side, order.price, order.amount as nat, e.opposite_side(order.side), e.ordinal, p, x);
}

/// Within a level, no order that others may trade with is left behind by a
/// fill of a later arrival.
proof fn lemma_fill_level_none_skipped(signer: Seq<char>, price: u64, want: nat, orders: Seq<PartialOrder>, side: Side, bound: u64)
    requires
        forall|k: int| 0 <= k < orders.len() ==> order_ok(#[trigger] orders[k], price, side, bound),
        by_arrival(orders),
    ensures
        ({
            let r = fill_level(signer, price, want, orders);
            forall|k: int, j: int| 0 <= k < r.1.len() && 0 <= j < r.0.len() && (#[trigger] r.1[k]).signer@ != signer
                ==> r.1[k].ordinal >= (#[trigger] r.0[j]).ordinal
        }),
    decreases orders.len(),
{
    if orders.len() == 0 || want == 0 {
    } else {
        let o = orders.last();
        let init = orders.drop_last();
        assert(o == orders[orders.len() - 1]);
        assert forall|k: int| 0 <= k < init.len() implies (#[trigger] init[k]).ordinal > o.ordinal by {
            assert(init[k] == orders[k]);
        }
        assert forall|k: int| 0 <= k < init.len() implies order_ok(#[trigger] init[k], price, side, bound) by {
            assert(init[k] == orders[k]);
        }
        let r = fill_level(signer, price, want, orders);
        if o.signer@ == signer {
            lemma_fill_level_none_skipped(signer, price, want, init, side, bound);
            let rec = fill_level(signer, price, want, init);
            assert forall|k: int, j: int| 0 <= k < r.1.len() && 0 <= j < r.0.len() && (#[trigger] r.1[k]).signer@ != signer
                implies r.1[k].ordinal >= (#[trigger] r.0[j]).ordinal by {
                assert(r.1[k] == rec.1[k]);
            }
        } else {
            let m: u64 = if want < o.remaining { want as u64 } else { o.remaining };
            lemma_fill_level_none_skipped(signer, price, (want - m) as nat, init, side, bound);
            lemma_fill_level_wf(signer, price, (want - m) as nat, init, side, bound, o.ordinal as int);
            lemma_fill_level_fills(signer, price, (want - m) as nat, init, o.ordinal as int);
            let rec = fill_level(signer, price, (want - m) as nat, init);
            assert forall|k: int, j: int| 0 <= k < r.1.len() && 0 <= j < r.0.len() && (#[trigger] r.1[k]).signer@ != signer
                implies r.1[k].ordinal >= (#[trigger] r.0[j]).ordinal by {
                if j > 0 {
                    assert(r.0[j] == rec.0[j - 1]);
                }
                if k < rec.1.len() {
                    assert(r.1[k] == rec.1[k]);
                }
            }
        }
    }
}

/// Matching against a well-formed side leaves no order that others may
/// trade with behind a fill of a later arrival at its price.
proof fn lemma_fill_side_none_skipped(
    signer: Seq<char>,
    side: Side,
    limit: u64,
    want: nat,
    levels: Seq<LevelView>,
    bound: u64,
    p: u64,
)
    requires
        side_wf(levels, side.opposite(), bound),
    ensures
        ({
            let r = fill_side(signer, side, limit, want, levels);
            let left = level_orders(r.1, p);
            forall|k: int, j: int|
                0 <= k < left.len() && 0 <= j < r.0.len() && (#[trigger] left[k]).signer@ != signer && (#[trigger] r.0[j]).price == p
                    ==> left[k].ordinal >= r.0[j].ordinal
        }),
    decreases levels.len(),
{
    let sd = side.opposite();
    if levels.len() == 0 || want == 0 || !crosses(side, limit, levels.last().price) {
    } else {
        let l = levels.last();
        let init = levels.drop_last();
        assert(l == levels[levels.len() - 1]);
        assert(level_wf(l, sd, bound));
        let r = fill_level(signer, l.price, want, l.orders);
        assert(side_wf(init, sd, bound)) by {
            assert forall|i: int| 0 <= i < init.len() implies level_wf(#[trigger] init[i], sd, bound) by {
                assert(init[i] == levels[i]);
            }
            assert forall|i: int, j: int| 0 <= i < j < init.len() implies stored_before(sd, #[trigger] init[i].price, #[trigger] init[j].price) by {
                assert(init[i] == levels[i]);
                assert(init[j] == levels[j]);
            }
        }
        assert forall|i: int| 0 <= i < init.len() implies stored_before(sd, #[trigger] init[i].price, l.price) by {
            assert(init[i] == levels[i]);
        }
        lemma_fill_side_wf(signer, side, limit, r.2, init, bound, true, l.price);
        lemma_fill_side_fills(signer, side, limit, r.2, init, bound, true, l.price);
        lemma_fill_level_fills(signer, l.price, want, l.orders, -1);
        lemma_fill_level_none_skipped(signer, l.price, want, l.orders, sd, bound);
        lemma_fill_side_none_skipped(signer, side, limit, r.2, init, bound, p);
        let rs = fill_side(signer, side, limit, r.2, init);
        let nl = LevelView { price: l.price, orders: r.1 };
        let out = fill_side(signer, side, limit, want, levels);
        let f = r.0 + rs.0;
        assert(out.0 == f);
        if p == l.price {
            assert forall|i: int| 0 <= i < rs.1.len() implies (#[trigger] rs.1[i]).price != p by {
                assert(stored_before(sd, rs.1[i].price, l.price));
            }
            let left = level_orders(out.1, p);
            if r.1.len() > 0 {
                lemma_level_orders_push_new(rs.1, nl);
                assert(left == r.1);
            } else {
                lemma_level_orders_absent(rs.1, p);
            }
            assert forall|k: int, j: int|
                0 <= k < left.len() && 0 <= j < f.len() && (#[trigger] left[k]).signer@ != signer && (#[trigger] f[j]).price == p
                    implies left[k].ordinal >= f[j].ordinal by {
                if j >= r.0.len() {
                    assert(f[j] == rs.0[j - r.0.len()]);
                    assert(stored_before(sd, f[j].price, l.price));
                }
            }
        } else {
            if r.1.len() > 0 {
                lemma_level_orders_push_other(rs.1, nl, p);
            }
            let left = level_orders(out.1, p);
            assert(left == level_orders(rs.1, p));
            assert forall|k: int, j: int|
                0 <= k < left.len() && 0 <= j < f.len() && (#[trigger] left[k]).signer@ != signer && (#[trigger] f[j]).price == p
                    implies left[k].ordinal >= f[j].ordinal by {
                if j >= r.0.len() {
                    assert(f[j] == rs.0[j - r.0.len()]);
                } else {
                    assert(f[j] == r.0[j]);
                }
            }
        }
    }
}

/// Time priority, the other half: after an order is processed, every order
/// still resting at a price that the incoming signer could trade with arrived
/// no earlier than any order filled at that price (the one partly filled
/// stays with its own sequence number), so no earlier arrival was passed
/// over for a later one.
pub proof fn law_no_earlier_order_passed_over(e: EngineView, order: Order, p: u64)
    requires
        e.wf(),
    ensures
        ({
            let left = level_orders(step(e, order).0.opposite_side(order.side), p);
            let fills = step(e, order).1;
            forall|k: int, j: int|
                0 <= k < left.len() && 0 <= j < fills.len() && (#[trigger] left[k]).signer@ != order.signer@
                    && (#[trigger] fills[j]).price == p ==> left[k].ordinal >= fills[j].ordinal
        }),
{
    lemma_fill_side_none_skipped(order.signer@, order.side, order.price, order.amount as nat, e.opposite_side(order.side), e.ordinal, p);
}

} // verus!
