use vstd::prelude::*;

use crate::models::{fill_of, reduced, PartialOrder, Side};

verus! {

/// All resting orders of one side of the book that share one price.
///
/// `orders` is kept in reverse priority: the order with the smallest
/// ordinal, which is matched first, is the last element.
#[derive(Clone, Debug, PartialEq, Eq)]
pub struct PriceLevel {
    /// The price shared by every order of the level
    pub price: u64,
    /// The resting orders, earliest arrival last
    pub orders: Vec<PartialOrder>,
}

/// The mathematical content of a [`PriceLevel`].
pub struct LevelView {
    pub price: u64,
    pub orders: Seq<PartialOrder>,
}

impl View for PriceLevel {
    type V = LevelView;

    open spec fn view(&self) -> LevelView {
        LevelView { price: self.price, orders: self.orders@ }
    }
}

/// The view of each price level of a side, in stored order.
pub open spec fn levels_view(levels: Seq<PriceLevel>) -> Seq<LevelView> {
    levels.map_values(|l: PriceLevel| l@)
}

/// Whether a resting order at `price` may trade with an incoming order of
/// side `side` and limit `limit`: asks at or below a buyer's limit, bids at
/// or above a seller's limit.
pub open spec fn crosses(side: Side, limit: u64, price: u64) -> bool {
    match side {
        Side::Buy => price <= limit,
        Side::Sell => price >= limit,
    }
}

/// Matches up to `want` units of an order signed by `signer` against the
/// orders of one level, taken from the end (earliest arrival first).
///
/// Returns the fills in the order they happen, the orders left in the level
/// (in stored order), and the units still wanted. Orders of the same signer
/// are passed over and kept as they are; a resting order that is fully
/// consumed leaves the level.
pub open spec fn fill_level(signer: Seq<char>, price: u64, want: nat, orders: Seq<PartialOrder>) -> (
    Seq<PartialOrder>,
    Seq<PartialOrder>,
    nat,
)
    decreases orders.len(),
{
    if orders.len() == 0 || want == 0 {
        (Seq::empty(), orders, want)
    } else {
        let o = orders.last();
        let init = orders.drop_last();
        if o.signer@ == signer {
            let r = fill_level(signer, price, want, init);
            (r.0, r.1.push(o), r.2)
        } else {
            let m: u64 = if want < o.remaining { want as u64 } else { o.remaining };
            let r = fill_level(signer, price, (want - m) as nat, init);
            let after = reduced(o, m);
            (
                seq![fill_of(o, m, price)] + r.0,
                if after.remaining > 0 { r.1.push(after) } else { r.1 },
                r.2,
            )
        }
    }
}

/// Matches up to `want` units of an incoming order (side `side`, limit
/// `limit`, signed by `signer`) against the opposite side's levels, taken
/// from the end (best price first) while their price crosses the limit.
///
/// Returns the fills, the levels left (a level that was emptied is gone),
/// and the units still wanted.
pub open spec fn fill_side(signer: Seq<char>, side: Side, limit: u64, want: nat, levels: Seq<LevelView>) -> (
    Seq<PartialOrder>,
    Seq<LevelView>,
    nat,
)
    decreases levels.len(),
{
    if levels.len() == 0 || want == 0 || !crosses(side, limit, levels.last().price) {
        (Seq::empty(), levels, want)
    } else {
        let l = levels.last();
        let r = fill_level(signer, l.price, want, l.orders);
        let rs = fill_side(signer, side, limit, r.2, levels.drop_last());
        (
            r.0 + rs.0,
            if r.1.len() > 0 { rs.1.push(LevelView { price: l.price, orders: r.1 }) } else { rs.1 },
            rs.2,
        )
    }
}

/// Exec counterpart of [`crosses`].
pub fn price_crosses(side: Side, limit: u64, price: u64) -> (r: bool)
    ensures
        r == crosses(side, limit, price),
{
    match side {
        Side::Buy => price <= limit,
        Side::Sell => price >= limit,
    }
}

/// Matches up to `want` units of an order signed by `signer` against the
/// orders of one level at `price`, in place. Returns the fills and the units
/// still wanted.
pub fn match_level(signer: &String, price: u64, want: u64, orders: &mut Vec<PartialOrder>) -> (res: (
    Vec<PartialOrder>,
    u64,
))
    ensures
        ({
            let r = fill_level(signer@, price, want as nat, old(orders)@);
            &&& res.0@ == r.0
            &&& final(orders)@ == r.1
            &&& res.1 == r.2
        }),
{
    let ghost orig = orders@;
    let mut fills: Vec<PartialOrder> = Vec::new();
    let mut left = want;
    let mut i = orders.len();
    assert(orders@.take(i as int) =~= orig);
    assert(fill_level(signer@, price, want as nat, orig).1 + orders@.skip(i as int)
        =~= fill_level(signer@, price, want as nat, orig).1);
    assert(fills@ + fill_level(signer@, price, want as nat, orig).0
        =~= fill_level(signer@, price, want as nat, orig).0);
    while i > 0 && left > 0
        invariant
            i <= orders.len(),
            ({
                let t = fill_level(signer@, price, want as nat, orig);
                let r = fill_level(signer@, price, left as nat, orders@.take(i as int));
                &&& t.0 == fills@ + r.0
                &&& t.1 == r.1 + orders@.skip(i as int)
                &&& t.2 == r.2
            }),
        decreases i,
    {
        let k = i - 1;
        let ghost pre = orders@;
        assert(pre.take(i as int).drop_last() =~= pre.take(k as int));
        assert(pre.take(i as int).last() == pre[k as int]);
        if orders[k].signer == *signer {
            assert(pre.take(k as int) + pre.skip(k as int) =~= pre);
            assert(pre.skip(k as int) =~= seq![pre[k as int]] + pre.skip(i as int));
            i = k;
            proof {
                let r = fill_level(signer@, price, left as nat, pre.take(k as int));
                assert(r.1.push(pre[k as int]) + pre.skip(i as int + 1) =~= r.1 + pre.skip(k as int));
            }
        } else {
            let m = if left < orders[k].remaining { left } else { orders[k].remaining };
            let mut cur = orders[k].snapshot();
            let f = PartialOrder::take_from(&mut cur, m, price);
            let ghost fills_pre = fills@;
            fills.push(f);
            left = left - m;
            let ghost r = fill_level(signer@, price, left as nat, pre.take(k as int));
            if cur.remaining == 0 {
                orders.remove(k);
                assert(orders@.take(k as int) =~= pre.take(k as int));
                assert(orders@.skip(k as int) =~= pre.skip(i as int));
            } else {
                orders.set(k, cur);
                assert(orders@.take(k as int) =~= pre.take(k as int));
                assert(orders@.skip(k as int) =~= seq![cur] + pre.skip(i as int));
                assert(r.1.push(cur) + pre.skip(i as int) =~= r.1 + orders@.skip(k as int));
            }
            assert(fills_pre + (seq![f] + r.0) =~= fills@ + r.0);
            i = k;
        }
    }
    assert(orders@.take(i as int) + orders@.skip(i as int) =~= orders@);
    assert(fills@ + Seq::<PartialOrder>::empty() =~= fills@);
    (fills, left)
}

/// Matches up to `want` units of an incoming order (side `side`, limit
/// `limit`, signed by `signer`) against the opposite side's `levels`, in
/// place. Returns the fills and the units still wanted.
pub fn match_side(signer: &String, side: Side, limit: u64, want: u64, levels: &mut Vec<PriceLevel>) -> (res: (
    Vec<PartialOrder>,
    u64,
))
    ensures
        ({
            let r = fill_side(signer@, side, limit, want as nat, levels_view(old(levels)@));
            &&& res.0@ == r.0
            &&& levels_view(final(levels)@) == r.1
            &&& res.1 == r.2
        }),
{
    let ghost orig = levels_view(levels@);
    let mut fills: Vec<PartialOrder> = Vec::new();
    let mut left = want;
    let mut j = levels.len();
    assert(levels_view(levels@).take(j as int) =~= orig);
    assert(fill_side(signer@, side, limit, want as nat, orig).1 + levels_view(levels@).skip(j as int)
        =~= fill_side(signer@, side, limit, want as nat, orig).1);
    assert(fills@ + fill_side(signer@, side, limit, want as nat, orig).0
        =~= fill_side(signer@, side, limit, want as nat, orig).0);
    while j > 0 && left > 0 && price_crosses(side, limit, levels[j - 1].price)
        invariant
            j <= levels.len(),
            ({
                let t = fill_side(signer@, side, limit, want as nat, orig);
                let r = fill_side(signer@, side, limit, left as nat, levels_view(levels@).take(j as int));
                &&& t.0 == fills@ + r.0
                &&& t.1 == r.1 + levels_view(levels@).skip(j as int)
                &&& t.2 == r.2
            }),
        decreases j,
    {
        let k = j - 1;
        let ghost pre = levels_view(levels@);
        assert(pre.take(j as int).drop_last() =~= pre.take(k as int));
        assert(pre.take(j as int).last() == pre[k as int]);
        let mut level = levels.remove(k);
        assert(level@ == pre[k as int]);
        let res = match_level(signer, level.price, left, &mut level.orders);
        let mut f = res.0;
        let ghost fills_pre = fills@;
        let ghost f_v = f@;
        fills.append(&mut f);
        left = res.1;
        let ghost r = fill_side(signer@, side, limit, left as nat, pre.take(k as int));
        if level.orders.len() > 0 {
            levels.insert(k, level);
            assert(levels_view(levels@).take(k as int) =~= pre.take(k as int));
            assert(levels_view(levels@).skip(k as int) =~= seq![level@] + pre.skip(j as int));
            assert(r.1.push(level@) + pre.skip(j as int) =~= r.1 + levels_view(levels@).skip(k as int));
        } else {
            assert(levels_view(levels@).take(k as int) =~= pre.take(k as int));
            assert(levels_view(levels@).skip(k as int) =~= pre.skip(j as int));
        }
        assert(fills_pre + (f_v + r.0) =~= fills@ + r.0);
        j = k;
    }
    assert(levels_view(levels@).take(j as int) + levels_view(levels@).skip(j as int) =~= levels_view(levels@));
    assert(fills@ + Seq::<PartialOrder>::empty() =~= fills@);
    (fills, left)
}

/// Whether price `a` is stored before price `b` on the side of orders of
/// side `side`: bids ascending, asks descending, so that the best price of
/// either side is stored last.
pub open spec fn stored_before(side: Side, a: u64, b: u64) -> bool {
    match side {
        Side::Buy => a < b,
        Side::Sell => a > b,
    }
}

/// Exec counterpart of [`stored_before`].
pub fn price_stored_before(side: Side, a: u64, b: u64) -> (r: bool)
    ensures
        r == stored_before(side, a, b),
{
    match side {
        Side::Buy => a < b,
        Side::Sell => a > b,
    }
}

/// The levels of one side after the order `o` comes to rest there: at the
/// front of its price's level (it arrived last), or in a new level stored at
/// its price's place.
pub open spec fn insert_order(levels: Seq<LevelView>, o: PartialOrder) -> Seq<LevelView>
    decreases levels.len(),
{
    if levels.len() == 0 {
        seq![LevelView { price: o.price, orders: seq![o] }]
    } else if levels[0].price == o.price {
        levels.update(0, LevelView { price: o.price, orders: seq![o] + levels[0].orders })
    } else if stored_before(o.side, o.price, levels[0].price) {
        seq![LevelView { price: o.price, orders: seq![o] }] + levels
    } else {
        seq![levels[0]] + insert_order(levels.drop_first(), o)
    }
}

proof fn lemma_insert_order_skip(levels: Seq<LevelView>, o: PartialOrder, i: int)
    requires
        0 <= i <= levels.len(),
        forall|j: int| 0 <= j < i ==> stored_before(o.side, #[trigger] levels[j].price, o.price),
    ensures
        insert_order(levels, o) == levels.take(i) + insert_order(levels.skip(i), o),
    decreases i,
{
    if i == 0 {
        assert(levels.skip(0) =~= levels);
        assert(levels.take(0) + insert_order(levels, o) =~= insert_order(levels, o));
    } else {
        let d = levels.drop_first();
        assert forall|j: int| 0 <= j < i - 1 implies stored_before(o.side, #[trigger] d[j].price, o.price) by {
            assert(d[j] == levels[j + 1]);
        }
        lemma_insert_order_skip(d, o, i - 1);
        assert(d.skip(i - 1) =~= levels.skip(i));
        assert(seq![levels[0]] + d.take(i - 1) =~= levels.take(i));
        assert(stored_before(o.side, levels[0].price, o.price));
        assert(seq![levels[0]] + (d.take(i - 1) + insert_order(levels.skip(i), o))
            =~= levels.take(i) + insert_order(levels.skip(i), o));
    }
}

/// Puts the order `o` to rest on the side `levels` of its own side.
pub fn rest_order(levels: &mut Vec<PriceLevel>, o: PartialOrder)
    ensures
        levels_view(final(levels)@) == insert_order(levels_view(old(levels)@), o),
{
    let ghost pre = levels_view(levels@);
    let mut i: usize = 0;
    while i < levels.len() && price_stored_before(o.side, levels[i].price, o.price)
        invariant
            i <= levels.len(),
            levels_view(levels@) == pre,
            forall|j: int| 0 <= j < i ==> stored_before(o.side, #[trigger] pre[j].price, o.price),
        decreases levels.len() - i,
    {
        i = i + 1;
    }
    proof {
        lemma_insert_order_skip(pre, o, i as int);
    }
    let ghost sk = pre.skip(i as int);
    if i < levels.len() && levels[i].price == o.price {
        let mut level = levels.remove(i);
        level.orders.insert(0, o);
        levels.insert(i, level);
        assert(sk[0] == pre[i as int]);
        assert(level.orders@ =~= seq![o] + pre[i as int].orders);
        assert(levels_view(levels@) =~= pre.take(i as int) + sk.update(0, level@));
    } else {
        let level = PriceLevel { price: o.price, orders: vec![o] };
        assert(level.orders@ =~= seq![o]);
        assert(level@ == LevelView { price: o.price, orders: seq![o] });
        levels.insert(i, level);
        if i < levels.len() - 1 {
            assert(sk[0] == pre[i as int]);
        }
        assert(levels_view(levels@) =~= pre.take(i as int) + (seq![level@] + sk));
    }
}

/// The orders resting at `price` in `levels`, or none if no level has that
/// price.
pub open spec fn level_orders(levels: Seq<LevelView>, price: u64) -> Seq<PartialOrder>
    decreases levels.len(),
{
    if levels.len() == 0 {
        Seq::empty()
    } else if levels[0].price == price {
        levels[0].orders
    } else {
        level_orders(levels.drop_first(), price)
    }
}

/// The sum of the unmatched quantities of `orders`.
pub open spec fn sum_remaining(orders: Seq<PartialOrder>) -> int
    decreases orders.len(),
{
    if orders.len() == 0 {
        0
    } else {
        sum_remaining(orders.drop_last()) + orders.last().remaining
    }
}

/// The total unmatched quantity resting at `price` in `levels`.
pub fn amount_at(levels: &Vec<PriceLevel>, price: u64) -> (r: u128)
    ensures
        r == sum_remaining(level_orders(levels_view(levels@), price)),
{
    let ghost all = levels_view(levels@);
    let mut i: usize = 0;
    assert(all.skip(0) =~= all);
    while i < levels.len() && levels[i].price != price
        invariant
            i <= levels.len(),
            all == levels_view(levels@),
            all.len() == levels@.len(),
            level_orders(all, price) == level_orders(all.skip(i as int), price),
        decreases levels.len() - i,
    {
        assert(all.skip(i as int)[0] == levels@[i as int]@);
        assert(all.skip(i as int).drop_first() =~= all.skip(i as int + 1));
        i = i + 1;
    }
    if i == levels.len() {
        return 0;
    }
    assert(all.skip(i as int)[0] == levels@[i as int]@);
    let orders = &levels[i].orders;
    let mut total: u128 = 0;
    let mut k: usize = 0;
    while k < orders.len()
        invariant
            k <= orders.len(),
            total == sum_remaining(orders@.take(k as int)),
            total <= k * 0xffff_ffff_ffff_ffffu128,
        decreases orders.len() - k,
    {
        assert(orders@.take(k as int + 1).drop_last() =~= orders@.take(k as int));
        assert(k < 0xffff_ffff_ffff_ffffu128);
        assert(total + orders[k as int].remaining <= (k + 1) * 0xffff_ffff_ffff_ffffu128) by (nonlinear_arith)
            requires
                total <= k * 0xffff_ffff_ffff_ffffu128,
                orders[k as int].remaining <= 0xffff_ffff_ffff_ffffu128;
        assert((k + 1) * 0xffff_ffff_ffff_ffffu128 <= 0xffff_ffff_ffff_ffffu128 * 0xffff_ffff_ffff_ffffu128) by (nonlinear_arith)
            requires
                k < 0xffff_ffff_ffff_ffffu128;
        total = total + orders[k].remaining as u128;
        k = k + 1;
    }
    assert(orders@.take(k as int) =~= orders@);
    total
}

/// The sum of the `amount` fields of `fills`: the units they matched.
pub open spec fn sum_amount(fills: Seq<PartialOrder>) -> int
    decreases fills.len(),
{
    if fills.len() == 0 {
        0
    } else {
        sum_amount(fills.drop_last()) + fills.last().amount
    }
}

/// The matched units of two runs of fills add up.
pub proof fn lemma_sum_amount_concat(a: Seq<PartialOrder>, b: Seq<PartialOrder>)
    ensures
        sum_amount(a + b) == sum_amount(a) + sum_amount(b),
    decreases b.len(),
{
    if b.len() == 0 {
        assert(a + b =~= a);
    } else {
        lemma_sum_amount_concat(a, b.drop_last());
        assert((a + b).drop_last() =~= a + b.drop_last());
    }
}

/// No run of fills matches a negative quantity.
pub proof fn lemma_sum_amount_nonneg(a: Seq<PartialOrder>)
    ensures
        sum_amount(a) >= 0,
    decreases a.len(),
{
    if a.len() > 0 {
        lemma_sum_amount_nonneg(a.drop_last());
    }
}

/// Matching within a level neither creates nor loses units: what the fills
/// matched and what is still wanted add up to what was wanted.
pub proof fn lemma_fill_level_conserves(signer: Seq<char>, price: u64, want: nat, orders: Seq<PartialOrder>)
    ensures
        ({
            let r = fill_level(signer, price, want, orders);
            sum_amount(r.0) + r.2 == want
        }),
    decreases orders.len(),
{
    if orders.len() == 0 || want == 0 {
    } else {
        let o = orders.last();
        let init = orders.drop_last();
        if o.signer@ == signer {
            lemma_fill_level_conserves(signer, price, want, init);
        } else {
            let m: u64 = if want < o.remaining { want as u64 } else { o.remaining };
            let r = fill_level(signer, price, (want - m) as nat, init);
            lemma_fill_level_conserves(signer, price, (want - m) as nat, init);
            lemma_sum_amount_concat(seq![fill_of(o, m, price)], r.0);
            let s1 = seq![fill_of(o, m, price)];
            assert(s1.drop_last() =~= Seq::<PartialOrder>::empty());
            assert(sum_amount(s1.drop_last()) == 0);
            assert(s1.last() == fill_of(o, m, price));
            assert(sum_amount(s1) == m);
            assert(fill_level(signer, price, want, orders).0 == seq![fill_of(o, m, price)] + r.0);
        }
    }
}

/// Matching against a side neither creates nor loses units: what the fills
/// matched and what is still wanted add up to what was wanted.
pub proof fn lemma_fill_side_conserves(signer: Seq<char>, side: Side, limit: u64, want: nat, levels: Seq<LevelView>)
    ensures
        ({
            let r = fill_side(signer, side, limit, want, levels);
            sum_amount(r.0) + r.2 == want
        }),
    decreases levels.len(),
{
    if levels.len() == 0 || want == 0 || !crosses(side, limit, levels.last().price) {
    } else {
        let l = levels.last();
        let r = fill_level(signer, l.price, want, l.orders);
        let rs = fill_side(signer, side, limit, r.2, levels.drop_last());
        lemma_fill_level_conserves(signer, l.price, want, l.orders);
        lemma_fill_side_conserves(signer, side, limit, r.2, levels.drop_last());
        lemma_sum_amount_concat(r.0, rs.0);
    }
}

/// A resting order of a level at `price` on side `side`, whose sequence
/// number is at most `bound`: it has quantity left, never more than it
/// arrived with.
pub open spec fn order_ok(o: PartialOrder, price: u64, side: Side, bound: u64) -> bool {
    &&& o.price == price
    &&& o.side == side
    &&& 0 < o.remaining <= o.amount
    &&& o.ordinal <= bound
}

/// Orders stored by strictly decreasing sequence number (earliest last).
pub open spec fn by_arrival(orders: Seq<PartialOrder>) -> bool {
    forall|a: int, b: int| 0 <= a < b < orders.len() ==> orders[a].ordinal > orders[b].ordinal
}

/// A well-formed level of side `side`: not empty, its orders ok and stored
/// by arrival.
pub open spec fn level_wf(l: LevelView, side: Side, bound: u64) -> bool {
    &&& l.orders.len() > 0
    &&& forall|k: int| 0 <= k < l.orders.len() ==> order_ok(#[trigger] l.orders[k], l.price, side, bound)
    &&& by_arrival(l.orders)
}

/// A well-formed side `side` of the book: its levels well-formed and stored
/// by strictly increasing priority of price (best last), so no two share a
/// price.
pub open spec fn side_wf(levels: Seq<LevelView>, side: Side, bound: u64) -> bool {
    &&& forall|i: int| 0 <= i < levels.len() ==> level_wf(#[trigger] levels[i], side, bound)
    &&& forall|i: int, j: int|
        0 <= i < j < levels.len() ==> stored_before(side, #[trigger] levels[i].price, #[trigger] levels[j].price)
}

} // verus!
