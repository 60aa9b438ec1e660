use exchange::book::{rest_order, PriceLevel};
use exchange::models::{Order, PartialOrder, Side};

#[test]
fn binary_heap_pops_partial_orders_with_smaller_ordinal_first() {
    let orders = (1..=2)
        .map(|ordinal| PartialOrder {
            ordinal,
            ..Default::default()
        })
        .collect::<Vec<_>>();

    let mut levels: Vec<PriceLevel> = Vec::new();
    for o in orders {
        rest_order(&mut levels, o);
    }
    let level = &mut levels[0].orders;

    let first_order = level.pop();
    let second_order = level.pop();

    assert_eq!(first_order.unwrap().ordinal, 1);
    assert_eq!(second_order.unwrap().ordinal, 2);
}

#[test]
fn take_from_splits_an_order() {
    let mut pos = PartialOrder {
        price: 10,
        amount: 5,
        remaining: 4,
        side: Side::Sell,
        signer: "A".to_string(),
        ordinal: 3,
    };
    let fill = PartialOrder::take_from(&mut pos, 3, 9);
    assert_eq!(pos.remaining, 1);
    assert_eq!(pos.amount, 5);
    assert_eq!(pos.price, 10);
    assert_eq!(
        fill,
        PartialOrder {
            price: 9,
            amount: 3,
            remaining: 1,
            side: Side::Sell,
            signer: "A".to_string(),
            ordinal: 3,
        }
    );
}

#[test]
fn into_partial_order_keeps_the_order_fields() {
    let o = Order {
        price: 4,
        amount: 6,
        side: Side::Buy,
        signer: "B".to_string(),
    };
    let p = o.into_partial_order(7, 2);
    assert_eq!(
        p,
        PartialOrder {
            price: 4,
            amount: 6,
            remaining: 2,
            side: Side::Buy,
            signer: "B".to_string(),
            ordinal: 7,
        }
    );
}

#[test]
fn resting_orders_keep_levels_sorted_best_last() {
    let mut bids: Vec<PriceLevel> = Vec::new();
    for (price, ordinal) in [(5u64, 1u64), (7, 2), (6, 3), (7, 4)] {
        rest_order(
            &mut bids,
            PartialOrder {
                price,
                amount: 1,
                remaining: 1,
                side: Side::Buy,
                signer: "A".to_string(),
                ordinal,
            },
        );
    }
    let prices: Vec<u64> = bids.iter().map(|l| l.price).collect();
    assert_eq!(prices, vec![5, 6, 7]);
    let ordinals: Vec<u64> = bids[2].orders.iter().map(|o| o.ordinal).collect();
    assert_eq!(ordinals, vec![4, 2]);
}
