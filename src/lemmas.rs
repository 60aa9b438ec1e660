use vstd::prelude::*;

use crate::book::{
    by_arrival, fill_level, fill_side, insert_order, level_wf, order_ok, side_wf,
    stored_before, LevelView,
};
use crate::models::{PartialOrder, Side};

verus! {

/// Matching within a well-formed level leaves orders that are still ok and
/// stored by arrival, each with a sequence number above any bound `lo` that
/// all the level's orders were above.
pub proof fn lemma_fill_level_wf(
    signer: Seq<char>,
    price: u64,
    want: nat,
    orders: Seq<PartialOrder>,
    side: Side,
    bound: u64,
    lo: int,
)
    requires
        forall|k: int| 0 <= k < orders.len() ==> order_ok(#[trigger] orders[k], price, side, bound),
        forall|k: int| 0 <= k < orders.len() ==> (#[trigger] orders[k]).ordinal > lo,
        by_arrival(orders),
    ensures
        ({
            let r = fill_level(signer, price, want, orders);
            &&& forall|k: int| 0 <= k < r.1.len() ==> order_ok(#[trigger] r.1[k], price, side, bound)
            &&& forall|k: int| 0 <= k < r.1.len() ==> (#[trigger] r.1[k]).ordinal > lo
            &&& by_arrival(r.1)
        }),
    decreases orders.len(),
{
    if orders.len() == 0 || want == 0 {
    } else {
        let o = orders.last();
        let init = orders.drop_last();
        assert(o == orders[orders.len() - 1]);
        assert forall|k: int| 0 <= k < init.len() implies (#[trigger] init[k]).ordinal > o.ordinal by {
            assert(init[k] == orders[k]);
        }
        if o.signer@ == signer {
            lemma_fill_level_wf(signer, price, want, init, side, bound, o.ordinal as int);
        } else {
            let m: u64 = if want < o.remaining { want as u64 } else { o.remaining };
            lemma_fill_level_wf(signer, price, (want - m) as nat, init, side, bound, o.ordinal as int);
        }
    }
}

/// Matching against a well-formed side leaves a well-formed side; when all
/// its prices were stored before `cap`, the prices left still are.
pub proof fn lemma_fill_side_wf(
    signer: Seq<char>,
    side: Side,
    limit: u64,
    want: nat,
    levels: Seq<LevelView>,
    bound: u64,
    capped: bool,
    cap: u64,
)
    requires
        side_wf(levels, side.opposite(), bound),
        capped ==> forall|i: int| 0 <= i < levels.len() ==> stored_before(side.opposite(), #[trigger] levels[i].price, cap),
    ensures
        ({
            let r = fill_side(signer, side, limit, want, levels);
            &&& side_wf(r.1, side.opposite(), bound)
            &&& capped ==> forall|i: int| 0 <= i < r.1.len() ==> stored_before(side.opposite(), #[trigger] r.1[i].price, cap)
        }),
    decreases levels.len(),
{
    let sd = side.opposite();
    if levels.len() == 0 || want == 0 || !crate::book::crosses(side, limit, levels.last().price) {
    } else {
        let l = levels.last();
        let init = levels.drop_last();
        assert(l == levels[levels.len() - 1]);
        assert(level_wf(l, sd, bound));
        let r = fill_level(signer, l.price, want, l.orders);
        lemma_fill_level_wf(signer, l.price, want, l.orders, sd, bound, -1);
        assert forall|i: int| 0 <= i < init.len() implies stored_before(sd, #[trigger] init[i].price, l.price) by {
            assert(init[i] == levels[i]);
        }
        assert(side_wf(init, sd, bound)) by {
            assert forall|i: int| 0 <= i < init.len() implies level_wf(#[trigger] init[i], sd, bound) by {
                assert(init[i] == levels[i]);
            }
            assert forall|i: int, j: int| 0 <= i < j < init.len() implies stored_before(sd, #[trigger] init[i].price, #[trigger] init[j].price) by {
                assert(init[i] == levels[i]);
                assert(init[j] == levels[j]);
            }
        }
        lemma_fill_side_wf(signer, side, limit, r.2, init, bound, true, l.price);
        if capped {
            lemma_fill_side_wf(signer, side, limit, r.2, init, bound, false, cap);
            assert forall|i: int| 0 <= i < init.len() implies stored_before(sd, #[trigger] init[i].price, cap) by {
                assert(init[i] == levels[i]);
            }
            lemma_fill_side_wf(signer, side, limit, r.2, init, bound, true, cap);
            assert(stored_before(sd, l.price, cap));
        }
        let rs = fill_side(signer, side, limit, r.2, init);
        if r.1.len() > 0 {
            let nl = LevelView { price: l.price, orders: r.1 };
            let out = rs.1.push(nl);
            assert(level_wf(nl, sd, bound));
            assert forall|i: int| 0 <= i < out.len() implies level_wf(#[trigger] out[i], sd, bound) by {
                if i < rs.1.len() {
                    assert(out[i] == rs.1[i]);
                }
            }
            assert forall|i: int, j: int| 0 <= i < j < out.len() implies stored_before(sd, #[trigger] out[i].price, #[trigger] out[j].price) by {
                assert(out[i] == rs.1[i]);
                if j < rs.1.len() {
                    assert(out[j] == rs.1[j]);
                }
            }
        }
    }
}

/// An ok order stays ok under a larger bound.
pub proof fn lemma_side_wf_grow(levels: Seq<LevelView>, side: Side, bound: u64, bigger: u64)
    requires
        side_wf(levels, side, bound),
        bound <= bigger,
    ensures
        side_wf(levels, side, bigger),
{
    assert forall|i: int| 0 <= i < levels.len() implies level_wf(#[trigger] levels[i], side, bigger) by {
        assert(level_wf(levels[i], side, bound));
        assert forall|k: int| 0 <= k < levels[i].orders.len() implies order_ok(#[trigger] levels[i].orders[k], levels[i].price, side, bigger) by {
            assert(order_ok(levels[i].orders[k], levels[i].price, side, bound));
        }
    }
}

/// Putting an ok order with a sequence number above every resting one on a
/// well-formed side leaves a well-formed side; when `cap` was stored before
/// every price, and before the order's, it still is.
pub proof fn lemma_insert_order_wf(levels: Seq<LevelView>, o: PartialOrder, bound: u64, capped: bool, cap: u64)
    requires
        side_wf(levels, o.side, bound),
        o.ordinal == bound + 1,
        order_ok(o, o.price, o.side, o.ordinal),
        capped ==> stored_before(o.side, cap, o.price),
        capped ==> forall|i: int| 0 <= i < levels.len() ==> stored_before(o.side, cap, #[trigger] levels[i].price),
    ensures
        side_wf(insert_order(levels, o), o.side, o.ordinal),
        capped ==> forall|i: int| 0 <= i < insert_order(levels, o).len()
            ==> stored_before(o.side, cap, #[trigger] insert_order(levels, o)[i].price),
    decreases levels.len(),
{
    let sd = o.side;
    let nb = o.ordinal;
    lemma_side_wf_grow(levels, sd, bound, nb);
    let out = insert_order(levels, o);
    let single = LevelView { price: o.price, orders: seq![o] };
    assert(level_wf(single, sd, nb)) by {
        assert(single.orders[0] == o);
    }
    if levels.len() == 0 {
    } else if levels[0].price == o.price {
        let l0 = levels[0];
        let nl = LevelView { price: o.price, orders: seq![o] + l0.orders };
        assert(level_wf(l0, sd, bound));
        assert(level_wf(nl, sd, nb)) by {
            assert forall|k: int| 0 <= k < nl.orders.len() implies order_ok(#[trigger] nl.orders[k], nl.price, sd, nb) by {
                if k > 0 {
                    assert(nl.orders[k] == l0.orders[k - 1]);
                    assert(order_ok(l0.orders[k - 1], l0.price, sd, bound));
                }
            }
            assert forall|a: int, b: int| 0 <= a < b < nl.orders.len() implies nl.orders[a].ordinal > nl.orders[b].ordinal by {
                assert(nl.orders[b] == l0.orders[b - 1]);
                assert(order_ok(l0.orders[b - 1], l0.price, sd, bound));
                if a > 0 {
                    assert(nl.orders[a] == l0.orders[a - 1]);
                }
            }
        }
        assert(out == levels.update(0, nl));
        assert forall|i: int| 0 <= i < out.len() implies level_wf(#[trigger] out[i], sd, nb) by {
            if i > 0 {
                assert(out[i] == levels[i]);
            }
        }
        assert forall|i: int, j: int| 0 <= i < j < out.len() implies stored_before(sd, #[trigger] out[i].price, #[trigger] out[j].price) by {
            assert(out[j] == levels[j]);
            if i > 0 {
                assert(out[i] == levels[i]);
            }
        }
    } else if stored_before(sd, o.price, levels[0].price) {
        assert(out == seq![single] + levels);
        assert forall|i: int| 0 <= i < out.len() implies level_wf(#[trigger] out[i], sd, nb) by {
            if i > 0 {
                assert(out[i] == levels[i - 1]);
            }
        }
        assert forall|i: int, j: int| 0 <= i < j < out.len() implies stored_before(sd, #[trigger] out[i].price, #[trigger] out[j].price) by {
            assert(out[j] == levels[j - 1]);
            if i > 0 {
                assert(out[i] == levels[i - 1]);
            } else if j - 1 > 0 {
                assert(stored_before(sd, levels[0].price, levels[j - 1].price));
            }
        }
        if capped {
            assert forall|i: int| 0 <= i < out.len() implies stored_before(sd, cap, #[trigger] out[i].price) by {
                if i > 0 {
                    assert(out[i] == levels[i - 1]);
                }
            }
        }
    } else {
        let l0 = levels[0];
        let d = levels.drop_first();
        assert(stored_before(sd, l0.price, o.price));
        assert(side_wf(d, sd, bound)) by {
            assert forall|i: int| 0 <= i < d.len() implies level_wf(#[trigger] d[i], sd, bound) by {
                assert(d[i] == levels[i + 1]);
            }
            assert forall|i: int, j: int| 0 <= i < j < d.len() implies stored_before(sd, #[trigger] d[i].price, #[trigger] d[j].price) by {
                assert(d[i] == levels[i + 1]);
                assert(d[j] == levels[j + 1]);
            }
        }
        assert forall|i: int| 0 <= i < d.len() implies stored_before(sd, l0.price, #[trigger] d[i].price) by {
            assert(d[i] == levels[i + 1]);
        }
        lemma_insert_order_wf(d, o, bound, true, l0.price);
        if capped {
            assert forall|i: int| 0 <= i < d.len() implies stored_before(sd, cap, #[trigger] d[i].price) by {
                assert(d[i] == levels[i + 1]);
            }
            lemma_insert_order_wf(d, o, bound, true, cap);
        }
        let rec = insert_order(d, o);
        assert(out == seq![l0] + rec);
        assert(level_wf(l0, sd, nb));
        assert forall|i: int| 0 <= i < out.len() implies level_wf(#[trigger] out[i], sd, nb) by {
            if i > 0 {
                assert(out[i] == rec[i - 1]);
            }
        }
        assert forall|i: int, j: int| 0 <= i < j < out.len() implies stored_before(sd, #[trigger] out[i].price, #[trigger] out[j].price) by {
            assert(out[j] == rec[j - 1]);
            if i > 0 {
                assert(out[i] == rec[i - 1]);
            }
        }
        if capped {
            assert forall|i: int| 0 <= i < out.len() implies stored_before(sd, cap, #[trigger] out[i].price) by {
                if i > 0 {
                    assert(out[i] == rec[i - 1]);
                }
            }
        }
    }
}

} // verus!
