use vstd::prelude::*;

verus! {

/// Side of an order: which half of the book it rests on.
#[derive(Clone, Copy, Debug, PartialEq, Eq, Structural, PartialOrd, Ord)]
pub enum Side {
    /// Wants to buy
    Buy,
    /// Wants to sell
    Sell,
}

impl Side {
    /// The side that orders of this side trade against.
    pub open spec fn opposite(self) -> Side {
        match self {
            Side::Buy => Side::Sell,
            Side::Sell => Side::Buy,
        }
    }
}

impl Default for Side {
    fn default() -> (r: Self)
        ensures
            r == Side::Buy,
    {
        Side::Buy
    }
}

/// An order to buy or sell an amount at a limit price.
#[derive(Clone, PartialEq, Eq, Debug)]
pub struct Order {
    /// Highest price a buyer pays, or lowest price a seller accepts
    pub price: u64,
    /// Number of units to trade
    pub amount: u64,
    /// The side of the order; it is matched against the opposite side
    pub side: Side,
    /// The account that signed the order
    pub signer: String,
}

/// An order kept in the book, or one fill reported in a [`Receipt`].
///
/// In the book, `amount` is the quantity the order arrived with and
/// `remaining` what is still unmatched. In a fill, `amount` is the quantity
/// matched by that fill and `remaining` what the resting order has left.
#[derive(Clone, PartialEq, Eq, Debug, Default)]
pub struct PartialOrder {
    /// Price per unit
    pub price: u64,
    /// Initial number of units, or units matched in a fill
    pub amount: u64,
    /// Units still unmatched
    pub remaining: u64,
    /// Buy or sell side of the book
    pub side: Side,
    /// Signer of the order
    pub signer: String,
    /// Sequence number
    pub ordinal: u64,
}

/// What the caller gets back for processing one [`Order`].
#[derive(Clone, PartialEq, Eq, Debug)]
pub struct Receipt {
    /// Sequence number of the processed order
    pub ordinal: u64,
    /// Fills that happened immediately, in the order they happened
    pub matches: Vec<PartialOrder>,
}

impl Order {
    /// Converts an [`Order`] into a [`PartialOrder`] with the given sequence
    /// number and unmatched quantity.
    pub fn into_partial_order(self, ordinal: u64, remaining: u64) -> (r: PartialOrder)
        ensures
            r == (PartialOrder {
                price: self.price,
                amount: self.amount,
                remaining,
                side: self.side,
                signer: self.signer,
                ordinal,
            }),
    {
        let Order { price, amount, side, signer } = self;
        PartialOrder { price, amount, remaining, side, signer, ordinal }
    }
}

impl PartialOrder {
    /// A field-by-field copy of this order.
    pub fn snapshot(&self) -> (r: PartialOrder)
        ensures
            r == *self,
    {
        PartialOrder {
            price: self.price,
            amount: self.amount,
            remaining: self.remaining,
            side: self.side,
            signer: self.signer.clone(),
            ordinal: self.ordinal,
        }
    }

    /// Splits one [`PartialOrder`] into two by taking `take` units from it.
    ///
    /// `pos` keeps what is left; the returned fill reports `take` as its
    /// amount, `price` as its price and the same remaining quantity as `pos`.
    pub fn take_from(pos: &mut PartialOrder, take: u64, price: u64) -> (fill: PartialOrder)
        requires
            take <= old(pos).remaining,
        ensures
            *final(pos) == reduced(*old(pos), take),
            fill == fill_of(*old(pos), take, price),
    {
        pos.remaining = pos.remaining - take;
        let mut fill = pos.snapshot();
        fill.amount = take;
        fill.price = price;
        fill
    }
}

/// `o` after `take` of its units were matched.
pub open spec fn reduced(o: PartialOrder, take: u64) -> PartialOrder {
    PartialOrder {
        price: o.price,
        amount: o.amount,
        remaining: (o.remaining - take) as u64,
        side: o.side,
        signer: o.signer,
        ordinal: o.ordinal,
    }
}

/// The fill record for matching `take` units of the resting order `o` at `price`.
pub open spec fn fill_of(o: PartialOrder, take: u64, price: u64) -> PartialOrder {
    PartialOrder {
        price,
        amount: take,
        remaining: (o.remaining - take) as u64,
        side: o.side,
        signer: o.signer,
        ordinal: o.ordinal,
    }
}

impl Receipt {
    /// A field-by-field copy of this receipt.
    pub fn snapshot(&self) -> (r: Receipt)
        ensures
            r.ordinal == self.ordinal,
            r.matches@ == self.matches@,
    {
        let mut matches: Vec<PartialOrder> = Vec::new();
        let mut i: usize = 0;
        while i < self.matches.len()
            invariant
                i <= self.matches.len(),
                matches@ == self.matches@.take(i as int),
            decreases self.matches.len() - i,
        {
            matches.push(self.matches[i].snapshot());
            i = i + 1;
            assert(matches@ =~= self.matches@.take(i as int));
        }
        assert(matches@ =~= self.matches@);
        Receipt { ordinal: self.ordinal, matches }
    }
}

} // verus!
