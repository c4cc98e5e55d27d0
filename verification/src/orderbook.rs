//! A limit order book for PT against SY: price-time priority, escrowed makers,
//! and takers who fill the best order first.
//!
//! Orders on each side form a doubly linked list from the best price down. The
//! book decides; the token movements it decides on are returned as transfers.

use crate::fixed::{ceil_div, fits, lemma_ceil, lemma_div_monotone, lemma_floor, WAD};
use crate::orderbook_queue::{
    lemma_close, lemma_fill, lemma_head_is_stored, lemma_place, well_formed,
};
use crate::wide;
use soroban_sdk::Env;
use std::collections::BTreeMap;
use vstd::prelude::*;

verus! {

broadcast use vstd::std_specs::btree::group_btree_axioms;

pub const BPS_DENOMINATOR: i128 = 10_000;

/// The highest taker fee an admin may set.
pub const MAX_TAKER_FEE_BPS: i128 = 1_000;

/// The most orders one page or one pruning may touch.
pub const MAX_PAGE_SIZE: u32 = 50;

/// The longest an order may rest: ninety days.
pub const MAX_ORDER_LIFETIME_SECONDS: u64 = 7_776_000;

#[derive(Clone, Copy, Debug, PartialEq, Eq, Structural)]
pub struct Config {
    pub admin: u64,
    pub pt_token: u64,
    pub sy_token: u64,
    pub maturity: u64,
    pub fee_recipient: u64,
    pub taker_fee_bps: i128,
}

#[derive(Clone, Copy, Debug, PartialEq, Eq, Structural)]
pub enum Side {
    /// A resting maker sells PT and receives SY.
    Ask,
    /// A resting maker buys PT and escrows SY.
    Bid,
}

#[derive(Clone, Copy, Debug, PartialEq, Eq, Structural)]
pub struct Order {
    pub id: u64,
    pub maker: u64,
    pub side: Side,
    /// SY shares per PT face unit, in fixed point.
    pub price_wad: i128,
    pub original_base: i128,
    pub remaining_base: i128,
    /// PT for asks and SY for bids still held for this order.
    pub escrow_remaining: i128,
    pub expiry: u64,
    pub created_at: u64,
    pub prev: Option<u64>,
    pub next: Option<u64>,
}

#[derive(Clone, Copy, Debug, PartialEq, Eq, Structural)]
pub struct FillReceipt {
    pub order_id: u64,
    pub maker: u64,
    pub taker: u64,
    pub side: Side,
    pub base_filled: i128,
    pub quote_amount: i128,
    pub taker_fee: i128,
    pub remaining_base: i128,
}

#[derive(Clone, Copy, Debug, PartialEq, Eq, Structural)]
pub enum Error {
    AlreadyInitialized,
    NotInitialized,
    InvalidMaturity,
    InvalidAmount,
    InvalidPrice,
    InvalidExpiry,
    InvalidFee,
    NotAdmin,
    OrderNotFound,
    NotMaker,
    WrongSide,
    InvalidPredecessor,
    OrderWouldCross,
    NotBestOrder,
    LimitPriceExceeded,
    OrderExpired,
    MarketMatured,
    MathOverflow,
    PageTooLarge,
}

#[derive(Clone, Copy, Debug, PartialEq, Eq, Structural)]
pub struct OrderPlaced {
    pub id: u64,
    pub maker: u64,
    pub side: Side,
    pub price_wad: i128,
    pub base_amount: i128,
    pub expiry: u64,
}

#[derive(Clone, Copy, Debug, PartialEq, Eq, Structural)]
pub struct OrderFilled {
    pub id: u64,
    pub maker: u64,
    pub taker: u64,
    pub base_filled: i128,
    pub quote_amount: i128,
    pub taker_fee: i128,
    pub remaining_base: i128,
}

#[derive(Clone, Copy, Debug, PartialEq, Eq, Structural)]
pub struct OrderCancelled {
    pub id: u64,
    pub maker: u64,
    pub remaining_base: i128,
    pub expired: bool,
}

#[derive(Clone, Copy, Debug, PartialEq, Eq, Structural)]
pub struct FeeSet {
    pub admin: u64,
    pub old_fee_bps: i128,
    pub new_fee_bps: i128,
}

/// Which of the market's two tokens a transfer moves.
#[derive(Clone, Copy, Debug, PartialEq, Eq, Structural)]
pub enum Asset {
    Pt,
    Sy,
}

/// Who a transfer moves tokens from or to.
#[derive(Clone, Copy, Debug, PartialEq, Eq, Structural)]
pub enum Party {
    /// The book's own escrow.
    Escrow,
    Account(u64),
}

/// A token movement the book has decided on.
#[derive(Clone, Copy, Debug, PartialEq, Eq, Structural)]
pub struct Transfer {
    pub asset: Asset,
    pub from: Party,
    pub to: Party,
    pub amount: i128,
}

/// An order closed with its refund.
#[derive(Clone, Copy, Debug, PartialEq, Eq, Structural)]
pub struct Closed {
    pub event: OrderCancelled,
    pub refund: Transfer,
}

/// The order book of one market.
#[derive(Clone, Debug)]
pub struct Orderbook {
    pub settings: Option<Config>,
    pub next_order_id: u64,
    pub ask_head: Option<u64>,
    pub bid_head: Option<u64>,
    pub open: u64,
    pub orders: BTreeMap<u64, Order>,
}

/// The lists of a book, as a value.
pub struct Book {
    pub orders: Map<u64, Order>,
    pub ask_head: Option<u64>,
    pub bid_head: Option<u64>,
    pub open: u64,
}

impl Book {
    pub open spec fn head(self, side: Side) -> Option<u64> {
        match side {
            Side::Ask => self.ask_head,
            Side::Bid => self.bid_head,
        }
    }

    pub open spec fn with_head(self, side: Side, id: Option<u64>) -> Book {
        match side {
            Side::Ask => Book { ask_head: id, ..self },
            Side::Bid => Book { bid_head: id, ..self },
        }
    }

    pub open spec fn with_order(self, order: Order) -> Book {
        Book { orders: self.orders.insert(order.id, order), ..self }
    }
}

// ---------------------------------------------------------------------------
// Amounts
// ---------------------------------------------------------------------------

/// SY owed for the first `base` PT of an order, rounded up.
pub open spec fn quote(base: int, price: int) -> int {
    ceil_div(base * price, WAD as int)
}

/// The taker's fee on a quote, rounded down.
pub open spec fn fee_on(amount: int, fee_bps: int) -> int {
    amount * fee_bps / (BPS_DENOMINATOR as int)
}

impl Order {
    /// What every resting order keeps. An ask escrows the PT it has left to
    /// sell; a bid escrows exactly the SY that filling the rest of it will cost.
    pub open spec fn valid(self) -> bool {
        &&& 0 < self.remaining_base <= self.original_base
        &&& self.price_wad > 0
        &&& match self.side {
            Side::Ask => self.escrow_remaining == self.remaining_base,
            Side::Bid => fits(quote(self.original_base as int, self.price_wad as int))
                && self.escrow_remaining == quote(
                self.original_base as int,
                self.price_wad as int,
            ) - quote(self.original_base - self.remaining_base, self.price_wad as int),
        }
    }
}

/// A longer prefix of an order is quoted no less, and an empty one nothing.
pub proof fn lemma_quote_order(a: int, b: int, price: int)
    requires
        0 <= a <= b,
        price > 0,
    ensures
        0 <= quote(a, price) <= quote(b, price),
        a == 0 ==> quote(a, price) == 0,
        a > 0 ==> quote(a, price) > 0,
{
    assert(0 <= a * price <= b * price && (a == 0 ==> a * price == 0) && (a > 0 ==> a * price > 0)) by (nonlinear_arith)
        requires
            0 <= a <= b,
            price > 0,
    ;
    lemma_ceil(a * price, WAD as int);
    lemma_div_monotone(a * price, b * price, WAD as int);
}

/// SY owed for the first `base_amount` PT of an order at a price.
pub fn cumulative_quote(env: &Env, base_amount: i128, price_wad: i128) -> (result: Result<i128, Error>)
    requires
        base_amount >= 0,
        price_wad > 0,
    ensures
        result == (if fits(quote(base_amount as int, price_wad as int)) {
            Ok::<i128, Error>(quote(base_amount as int, price_wad as int) as i128)
        } else {
            Err(Error::MathOverflow)
        }),
{
    proof {
        lemma_quote_order(base_amount as int, base_amount as int, price_wad as int);
        assert(base_amount * price_wad >= 0) by (nonlinear_arith)
            requires
                base_amount >= 0,
                price_wad > 0,
        ;
    }
    if base_amount == 0 {
        return Ok(0);
    }
    match wide::mul_div_ceil(env, base_amount, price_wad, WAD) {
        Some(value) => Ok(value),
        None => Err(Error::MathOverflow),
    }
}

/// The taker's fee on a quote.
fn taker_fee_on(env: &Env, quote_amount: i128, fee_bps: i128) -> (fee: i128)
    requires
        quote_amount > 0,
        0 <= fee_bps <= MAX_TAKER_FEE_BPS,
    ensures
        fee == fee_on(quote_amount as int, fee_bps as int),
        0 <= fee < quote_amount,
{
    proof {
        let n: int = quote_amount * fee_bps;
        assert(0 <= n <= quote_amount * 1_000) by (nonlinear_arith)
            requires
                n == quote_amount * fee_bps,
                quote_amount > 0,
                0 <= fee_bps <= 1_000,
        ;
        lemma_floor(n, BPS_DENOMINATOR as int);
    }
    match wide::mul_div_floor(env, quote_amount, fee_bps, BPS_DENOMINATOR) {
        Some(fee) => fee,
        None => 0,
    }
}

// ---------------------------------------------------------------------------
// Links
// ---------------------------------------------------------------------------

/// Whether an order at price `left` ranks before one at `right`; `strict` is
/// used against a successor, so that an equal price queues behind it.
pub open spec fn outranks(side: Side, left: int, right: int, strict: bool) -> bool {
    match (side, strict) {
        (Side::Ask, false) => left <= right,
        (Side::Ask, true) => left < right,
        (Side::Bid, false) => left >= right,
        (Side::Bid, true) => left > right,
    }
}

pub fn ordered_before(side: Side, left: i128, right: i128, strict: bool) -> (result: bool)
    ensures
        result == outranks(side, left as int, right as int, strict),
{
    match (side, strict) {
        (Side::Ask, false) => left <= right,
        (Side::Ask, true) => left < right,
        (Side::Bid, false) => left >= right,
        (Side::Bid, true) => left > right,
    }
}

/// The neighbors a new order goes between.
pub open spec fn neighbors(book: Book, side: Side, price: int, predecessor: Option<u64>) -> Result<
    (Option<u64>, Option<u64>),
    Error,
> {
    let previous_fits = match predecessor {
        None => true,
        Some(id) => book.orders.contains_key(id) && book.orders[id].side == side && outranks(
            side,
            book.orders[id].price_wad as int,
            price,
            false,
        ),
    };
    let successor = match predecessor {
        None => book.head(side),
        Some(id) => book.orders[id].next,
    };
    let next_fits = match successor {
        None => true,
        Some(id) => book.orders.contains_key(id) && book.orders[id].side == side && outranks(
            side,
            price,
            book.orders[id].price_wad as int,
            true,
        ),
    };
    if previous_fits && next_fits {
        Ok((predecessor, successor))
    } else {
        Err(Error::InvalidPredecessor)
    }
}

/// Whether an order at this price would trade against the best opposite order.
pub open spec fn crosses(book: Book, side: Side, price: int) -> bool {
    match side {
        Side::Ask => book.bid_head matches Some(id) && book.orders.contains_key(id) && price
            <= book.orders[id].price_wad,
        Side::Bid => book.ask_head matches Some(id) && book.orders.contains_key(id) && price
            >= book.orders[id].price_wad,
    }
}

/// The book with a new order between its neighbors.
pub open spec fn placed(book: Book, order: Order) -> Book {
    let after_prev = match order.prev {
        Some(id) => book.with_order(Order { next: Some(order.id), ..book.orders[id] }),
        None => book.with_head(order.side, Some(order.id)),
    };
    let after_next = match order.next {
        Some(id) => after_prev.with_order(Order { prev: Some(order.id), ..after_prev.orders[id] }),
        None => after_prev,
    };
    Book { open: (book.open + 1) as u64, ..after_next.with_order(order) }
}

/// The book with an order's neighbors joined across it.
pub open spec fn unlinked(book: Book, order: Order) -> Book {
    let after_prev = match order.prev {
        Some(id) => book.with_order(Order { next: order.next, ..book.orders[id] }),
        None => book.with_head(order.side, order.next),
    };
    match order.next {
        Some(id) => after_prev.with_order(Order { prev: order.prev, ..after_prev.orders[id] }),
        None => after_prev,
    }
}

/// The book without an order.
pub open spec fn removed(book: Book, order: Order) -> Book {
    let joined = unlinked(book, order);
    Book { orders: joined.orders.remove(order.id), open: (book.open - 1) as u64, ..joined }
}

/// What taking an order off the book gives.
pub open spec fn removal(book: Book, order: Order) -> Result<Book, Error> {
    if (order.prev matches Some(id) && !book.orders.contains_key(id)) || (order.next matches Some(id)
        && !book.orders.contains_key(id)) {
        Err(Error::OrderNotFound)
    } else if book.open == 0 {
        Err(Error::MathOverflow)
    } else {
        Ok(removed(book, order))
    }
}

/// What closing an order pays its maker back.
pub open spec fn refund(order: Order) -> Transfer {
    Transfer {
        asset: match order.side {
            Side::Ask => Asset::Pt,
            Side::Bid => Asset::Sy,
        },
        from: Party::Escrow,
        to: Party::Account(order.maker),
        amount: order.escrow_remaining,
    }
}

pub open spec fn closed(order: Order, expired: bool) -> Closed {
    Closed {
        event: OrderCancelled {
            id: order.id,
            maker: order.maker,
            remaining_base: order.remaining_base,
            expired,
        },
        refund: refund(order),
    }
}

/// The expired orders at the head of a side, best first, up to a limit.
pub open spec fn pruning(book: Book, side: Side, now: u64, limit: nat) -> Result<(Book, Seq<Closed>), Error>
    decreases limit,
{
    if limit == 0 {
        Ok((book, Seq::empty()))
    } else {
        match book.head(side) {
            None => Ok((book, Seq::empty())),
            Some(id) => if !book.orders.contains_key(id) {
                Err(Error::OrderNotFound)
            } else if book.orders[id].expiry > now {
                Ok((book, Seq::empty()))
            } else {
                match removal(book, book.orders[id]) {
                    Err(error) => Err(error),
                    Ok(rest) => match pruning(rest, side, now, (limit - 1) as nat) {
                        Err(error) => Err(error),
                        Ok(pruned) => Ok(
                            (pruned.0, seq![closed(book.orders[id], true)] + pruned.1),
                        ),
                    },
                }
            },
        }
    }
}

/// Up to `limit` orders in priority order, from an order id on.
pub open spec fn page(book: Book, next: Option<u64>, limit: nat) -> Result<Seq<Order>, Error>
    decreases limit,
{
    if limit == 0 {
        Ok(Seq::empty())
    } else {
        match next {
            None => Ok(Seq::empty()),
            Some(id) => if !book.orders.contains_key(id) {
                Err(Error::OrderNotFound)
            } else {
                match page(book, book.orders[id].next, (limit - 1) as nat) {
                    Err(error) => Err(error),
                    Ok(rest) => Ok(seq![book.orders[id]] + rest),
                }
            },
        }
    }
}

/// Every stored order is valid and stored under its own id.
pub open spec fn orders_valid(orders: Map<u64, Order>) -> bool {
    forall|id: u64| #[trigger] orders.contains_key(id) ==> orders[id].id == id && orders[id].valid()
}

// ---------------------------------------------------------------------------
// Fills
// ---------------------------------------------------------------------------

/// The token movements a fill decides on. Nothing moves where nothing is owed.
pub open spec fn fill_transfers(config: Config, receipt: FillReceipt) -> Seq<Transfer> {
    let fee = if receipt.taker_fee > 0 {
        seq![
            (Transfer {
                asset: Asset::Sy,
                from: Party::Escrow,
                to: Party::Account(config.fee_recipient),
                amount: receipt.taker_fee,
            }),
        ]
    } else {
        Seq::empty()
    };
    match receipt.side {
        Side::Ask => seq![
            (Transfer {
                asset: Asset::Sy,
                from: Party::Account(receipt.taker),
                to: Party::Escrow,
                amount: (receipt.quote_amount + receipt.taker_fee) as i128,
            }),
            (Transfer {
                asset: Asset::Sy,
                from: Party::Escrow,
                to: Party::Account(receipt.maker),
                amount: receipt.quote_amount,
            }),
        ] + fee + seq![
            (Transfer {
                asset: Asset::Pt,
                from: Party::Escrow,
                to: Party::Account(receipt.taker),
                amount: receipt.base_filled,
            }),
        ],
        Side::Bid => seq![
            (Transfer {
                asset: Asset::Pt,
                from: Party::Account(receipt.taker),
                to: Party::Escrow,
                amount: receipt.base_filled,
            }),
            (Transfer {
                asset: Asset::Pt,
                from: Party::Escrow,
                to: Party::Account(receipt.maker),
                amount: receipt.base_filled,
            }),
            (Transfer {
                asset: Asset::Sy,
                from: Party::Escrow,
                to: Party::Account(receipt.taker),
                amount: (receipt.quote_amount - receipt.taker_fee) as i128,
            }),
        ] + fee,
    }
}

/// The order a fill leaves, before it is taken off the book if nothing remains.
pub open spec fn drawn_down(order: Order, base: int, quote_amount: int) -> Order {
    Order {
        remaining_base: (order.remaining_base - base) as i128,
        escrow_remaining: (order.escrow_remaining - (match order.side {
            Side::Ask => base,
            Side::Bid => quote_amount,
        })) as i128,
        ..order
    }
}

/// SY owed for filling the next `base` PT of an order.
pub open spec fn fill_quote(order: Order, base: int) -> int {
    let filled = order.original_base - order.remaining_base;
    quote(filled + base, order.price_wad as int) - quote(filled, order.price_wad as int)
}

/// What filling `base` PT of an order gives, and what it leaves of the book.
pub open spec fn filling(book: Book, config: Config, order: Order, taker: u64, base: int) -> Result<
    (FillReceipt, Book),
    Error,
> {
    let filled = order.original_base - order.remaining_base;
    let amount = fill_quote(order, base);
    let fee = fee_on(amount, config.taker_fee_bps as int);
    if !fits(quote(filled + base, order.price_wad as int)) {
        Err(Error::MathOverflow)
    } else if amount <= 0 {
        Err(Error::InvalidAmount)
    } else if order.side == Side::Ask && !fits(amount + fee) {
        Err(Error::MathOverflow)
    } else {
        let receipt = FillReceipt {
            order_id: order.id,
            maker: order.maker,
            taker,
            side: order.side,
            base_filled: base as i128,
            quote_amount: amount as i128,
            taker_fee: fee as i128,
            remaining_base: (order.remaining_base - base) as i128,
        };
        if base == order.remaining_base {
            match removal(book, order) {
                Err(error) => Err(error),
                Ok(rest) => Ok((receipt, rest)),
            }
        } else {
            Ok((receipt, book.with_order(drawn_down(order, base, amount))))
        }
    }
}

// ---------------------------------------------------------------------------
// The book
// ---------------------------------------------------------------------------

/// A completed fill: the receipt, the event, and the token movements.
#[derive(Clone, Debug)]
pub struct Fill {
    pub receipt: FillReceipt,
    pub event: OrderFilled,
    pub transfers: Vec<Transfer>,
}

/// A placed order: the event, and the maker's escrow payment.
#[derive(Clone, Copy, Debug, PartialEq, Eq, Structural)]
pub struct Placement {
    pub event: OrderPlaced,
    pub escrow: Transfer,
}

pub fn require_fee(fee_bps: i128) -> (result: Result<(), Error>)
    ensures
        result == (if 0 <= fee_bps <= MAX_TAKER_FEE_BPS {
            Ok::<(), Error>(())
        } else {
            Err(Error::InvalidFee)
        }),
{
    if fee_bps < 0 || fee_bps > MAX_TAKER_FEE_BPS {
        return Err(Error::InvalidFee);
    }
    Ok(())
}

/// Appends a transfer where there is something to move.
fn push_transfer(transfers: &mut Vec<Transfer>, asset: Asset, from: Party, to: Party, amount: i128)
    ensures
        final(transfers)@ == (if amount > 0 {
            old(transfers)@.push(Transfer { asset, from, to, amount })
        } else {
            old(transfers)@
        }),
{
    if amount > 0 {
        transfers.push(Transfer { asset, from, to, amount });
    }
}

impl Orderbook {
    /// The lists, as a value.
    pub open spec fn book(self) -> Book {
        Book {
            orders: self.orders@,
            ask_head: self.ask_head,
            bid_head: self.bid_head,
            open: self.open,
        }
    }

    /// What every operation keeps of each part: an accepted fee, and valid
    /// orders under their own ids.
    pub open spec fn valid(self) -> bool {
        &&& self.settings matches Some(config) ==> 0 <= config.taker_fee_bps <= MAX_TAKER_FEE_BPS
        &&& orders_valid(self.orders@)
    }

    /// What every operation keeps of the whole: two uncrossed queues in
    /// price-time priority.
    pub open spec fn well_formed(self) -> bool {
        well_formed(self.book(), self.next_order_id)
    }

    pub open spec fn live(self, now: u64) -> Result<Config, Error> {
        match self.settings {
            None => Err(Error::NotInitialized),
            Some(config) => if now >= config.maturity {
                Err(Error::MarketMatured)
            } else {
                Ok(config)
            },
        }
    }

    /// The order a placement would add, if it is accepted.
    pub open spec fn placing(
        self,
        now: u64,
        maker: u64,
        side: Side,
        base: int,
        price: int,
        expiry: u64,
        predecessor: Option<u64>,
    ) -> Result<Order, Error> {
        match self.live(now) {
            Err(error) => Err(error),
            Ok(config) => if base <= 0 {
                Err(Error::InvalidAmount)
            } else if price <= 0 {
                Err(Error::InvalidPrice)
            } else if expiry <= now || expiry > config.maturity || expiry - now
                > MAX_ORDER_LIFETIME_SECONDS {
                Err(Error::InvalidExpiry)
            } else if crosses(self.book(), side, price) {
                Err(Error::OrderWouldCross)
            } else if self.next_order_id == u64::MAX {
                Err(Error::MathOverflow)
            } else {
                match neighbors(self.book(), side, price, predecessor) {
                    Err(error) => Err(error),
                    Ok(links) => if (side == Side::Bid && !fits(quote(base, price))) || self.open
                        == u64::MAX {
                        Err(Error::MathOverflow)
                    } else {
                        Ok(
                            Order {
                                id: self.next_order_id,
                                maker,
                                side,
                                price_wad: price as i128,
                                original_base: base as i128,
                                remaining_base: base as i128,
                                escrow_remaining: (match side {
                                    Side::Ask => base,
                                    Side::Bid => quote(base, price),
                                }) as i128,
                                expiry,
                                created_at: now,
                                prev: links.0,
                                next: links.1,
                            },
                        )
                    },
                }
            },
        }
    }

    /// What a fill of the best order on a side gives.
    pub open spec fn best_fill(
        self,
        now: u64,
        taker: u64,
        side: Side,
        base: int,
        limit: int,
    ) -> Result<(FillReceipt, Book), Error> {
        match self.live(now) {
            Err(error) => Err(error),
            Ok(config) => if base <= 0 {
                Err(Error::InvalidAmount)
            } else if limit <= 0 {
                Err(Error::InvalidPrice)
            } else {
                match self.book().head(side) {
                    None => Err(Error::OrderNotFound),
                    Some(id) => if !self.orders@.contains_key(id) {
                        Err(Error::OrderNotFound)
                    } else {
                        let order = self.orders@[id];
                        if order.side != side {
                            Err(Error::WrongSide)
                        } else if order.expiry <= now {
                            Err(Error::OrderExpired)
                        } else if outranks(side, limit, order.price_wad as int, true) {
                            Err(Error::LimitPriceExceeded)
                        } else if base > order.remaining_base {
                            Err(Error::InvalidAmount)
                        } else {
                            filling(self.book(), config, order, taker, base)
                        }
                    },
                }
            },
        }
    }

    /// An empty book that is not initialized yet.
    pub fn new() -> (book: Self)
        ensures
            book.settings is None,
            book.next_order_id == 1,
            book.book() == (Book {
                orders: Map::empty(),
                ask_head: None,
                bid_head: None,
                open: 0,
            }),
            book.valid(),
            book.well_formed(),
    {
        let book = Orderbook {
            settings: None,
            next_order_id: 1,
            ask_head: None,
            bid_head: None,
            open: 0,
            orders: BTreeMap::new(),
        };
        proof {
            assert(crate::orderbook_queue::queued(
                book.book(),
                1,
                Seq::<u64>::empty(),
                Seq::<u64>::empty(),
            ));
        }
        book
    }

    pub fn initialize(
        &mut self,
        now: u64,
        admin: u64,
        pt_token: u64,
        sy_token: u64,
        maturity: u64,
        fee_recipient: u64,
        taker_fee_bps: i128,
    ) -> (result: Result<(), Error>)
        requires
            old(self).valid(),
            old(self).settings is None ==> old(self).next_order_id == 1 && old(self).open == 0,
        ensures
            final(self).valid(),
            final(self).book() == old(self).book(),
            final(self).next_order_id == old(self).next_order_id,
            result == (if old(self).settings is Some {
                Err::<(), Error>(Error::AlreadyInitialized)
            } else if maturity <= now {
                Err(Error::InvalidMaturity)
            } else if !(0 <= taker_fee_bps <= MAX_TAKER_FEE_BPS) {
                Err(Error::InvalidFee)
            } else {
                Ok(())
            }),
            final(self).settings == (if result is Ok {
                Some(
                    Config { admin, pt_token, sy_token, maturity, fee_recipient, taker_fee_bps },
                )
            } else {
                old(self).settings
            }),
    {
        if self.settings.is_some() {
            return Err(Error::AlreadyInitialized);
        }
        if maturity <= now {
            return Err(Error::InvalidMaturity);
        }
        require_fee(taker_fee_bps)?;
        self.settings = Some(
            Config { admin, pt_token, sy_token, maturity, fee_recipient, taker_fee_bps },
        );
        Ok(())
    }

    pub fn config(&self) -> (result: Result<Config, Error>)
        ensures
            result == (match self.settings {
                Some(config) => Ok::<Config, Error>(config),
                None => Err(Error::NotInitialized),
            }),
    {
        match self.settings {
            Some(config) => Ok(config),
            None => Err(Error::NotInitialized),
        }
    }

    fn read_live_config(&self, now: u64) -> (result: Result<Config, Error>)
        ensures
            result == self.live(now),
    {
        let config: Config = self.config()?;
        if now >= config.maturity {
            return Err(Error::MarketMatured);
        }
        Ok(config)
    }

    pub fn set_fee(&mut self, admin: u64, taker_fee_bps: i128) -> (result: Result<FeeSet, Error>)
        requires
            old(self).valid(),
        ensures
            final(self).valid(),
            final(self).book() == old(self).book(),
            final(self).next_order_id == old(self).next_order_id,
            match old(self).settings {
                None => result == Err::<FeeSet, Error>(Error::NotInitialized) && final(self).settings is None,
                Some(config) => if admin != config.admin {
                    result == Err::<FeeSet, Error>(Error::NotAdmin) && final(self).settings == Some(
                        config,
                    )
                } else if !(0 <= taker_fee_bps <= MAX_TAKER_FEE_BPS) {
                    result == Err::<FeeSet, Error>(Error::InvalidFee) && final(self).settings == Some(
                        config,
                    )
                } else {
                    &&& result == Ok::<FeeSet, Error>(
                        FeeSet {
                            admin,
                            old_fee_bps: config.taker_fee_bps,
                            new_fee_bps: taker_fee_bps,
                        },
                    )
                    &&& final(self).settings == Some(Config { taker_fee_bps, ..config })
                },
            },
    {
        let config: Config = self.config()?;
        if admin != config.admin {
            return Err(Error::NotAdmin);
        }
        require_fee(taker_fee_bps)?;
        self.settings = Some(Config { taker_fee_bps, ..config });
        Ok(FeeSet { admin, old_fee_bps: config.taker_fee_bps, new_fee_bps: taker_fee_bps })
    }

    pub fn get_order(&self, order_id: u64) -> (result: Option<Order>)
        ensures
            result == (if self.orders@.contains_key(order_id) {
                Some(self.orders@[order_id])
            } else {
                None
            }),
    {
        match self.orders.get(&order_id) {
            Some(order) => Some(*order),
            None => None,
        }
    }

    fn head(&self, side: Side) -> (result: Option<u64>)
        ensures
            result == self.book().head(side),
    {
        match side {
            Side::Ask => self.ask_head,
            Side::Bid => self.bid_head,
        }
    }

    fn set_head(&mut self, side: Side, id: Option<u64>)
        ensures
            final(self).book() == old(self).book().with_head(side, id),
            final(self).settings == old(self).settings,
            final(self).next_order_id == old(self).next_order_id,
    {
        match side {
            Side::Ask => {
                self.ask_head = id;
            },
            Side::Bid => {
                self.bid_head = id;
            },
        }
    }

    fn write_order(&mut self, order: Order)
        ensures
            final(self).book() == old(self).book().with_order(order),
            final(self).settings == old(self).settings,
            final(self).next_order_id == old(self).next_order_id,
    {
        self.orders.insert(order.id, order);
    }

    pub fn best_order(&self, side: Side) -> (result: Option<Order>)
        ensures
            result == (match self.book().head(side) {
                Some(id) => if self.orders@.contains_key(id) {
                    Some(self.orders@[id])
                } else {
                    None
                },
                None => None,
            }),
    {
        match self.head(side) {
            Some(id) => self.get_order(id),
            None => None,
        }
    }

    pub fn open_count(&self) -> (count: u64)
        ensures
            count == self.open,
    {
        self.open
    }

    /// Active orders in priority order, from the best or from after `cursor`.
    pub fn list_orders(&self, side: Side, cursor: Option<u64>, limit: u32) -> (result: Result<
        Vec<Order>,
        Error,
    >)
        ensures
            match result {
                Ok(orders) => self.listing(side, cursor, limit as nat) == Ok::<Seq<Order>, Error>(
                    orders@,
                ),
                Err(error) => self.listing(side, cursor, limit as nat) == Err::<Seq<Order>, Error>(
                    error,
                ),
            },
    {
        self.config()?;
        if limit == 0 || limit > MAX_PAGE_SIZE {
            return Err(Error::PageTooLarge);
        }
        let mut next: Option<u64> = match cursor {
            Some(id) => match self.get_order(id) {
                None => {
                    return Err(Error::OrderNotFound);
                },
                Some(order) => {
                    if order.side != side {
                        return Err(Error::WrongSide);
                    }
                    order.next
                },
            },
            None => self.head(side),
        };
        let ghost start: Option<u64> = next;
        let mut orders: Vec<Order> = Vec::new();
        let mut left: u32 = limit;
        let ghost whole = page(self.book(), start, limit as nat);
        while left > 0 && next.is_some()
            invariant
                whole == page(self.book(), start, limit as nat),
                self.listing(side, cursor, limit as nat) == whole,
                match page(self.book(), next, left as nat) {
                    Ok(rest) => whole == Ok::<Seq<Order>, Error>(orders@ + rest),
                    Err(error) => whole == Err::<Seq<Order>, Error>(error),
                },
            decreases left,
        {
            match next {
                None => {},
                Some(id) => match self.get_order(id) {
                    None => {
                        return Err(Error::OrderNotFound);
                    },
                    Some(order) => {
                        let ghost before: Seq<Order> = orders@;
                        proof {
                            match page(self.book(), order.next, (left - 1) as nat) {
                                Ok(rest) => {
                                    assert(before + (seq![order] + rest) =~= before.push(order)
                                        + rest);
                                },
                                Err(_) => {},
                            }
                        }
                        orders.push(order);
                        next = order.next;
                        left = left - 1;
                    },
                },
            }
        }
        proof {
            assert(orders@ + Seq::<Order>::empty() =~= orders@);
        }
        Ok(orders)
    }

    /// What `list_orders` returns.
    pub open spec fn listing(self, side: Side, cursor: Option<u64>, limit: nat) -> Result<
        Seq<Order>,
        Error,
    > {
        if self.settings is None {
            Err(Error::NotInitialized)
        } else if limit == 0 || limit > MAX_PAGE_SIZE {
            Err(Error::PageTooLarge)
        } else {
            match cursor {
                None => page(self.book(), self.book().head(side), limit),
                Some(id) => if !self.orders@.contains_key(id) {
                    Err(Error::OrderNotFound)
                } else if self.orders@[id].side != side {
                    Err(Error::WrongSide)
                } else {
                    page(self.book(), self.orders@[id].next, limit)
                },
            }
        }
    }

    fn reject_crossing_order(&self, side: Side, price_wad: i128) -> (result: Result<(), Error>)
        ensures
            result == (if crosses(self.book(), side, price_wad as int) {
                Err::<(), Error>(Error::OrderWouldCross)
            } else {
                Ok(())
            }),
    {
        let opposite: Side = match side {
            Side::Ask => Side::Bid,
            Side::Bid => Side::Ask,
        };
        match self.best_order(opposite) {
            None => Ok(()),
            Some(best) => {
                let crossed: bool = match side {
                    Side::Ask => price_wad <= best.price_wad,
                    Side::Bid => price_wad >= best.price_wad,
                };
                if crossed {
                    return Err(Error::OrderWouldCross);
                }
                Ok(())
            },
        }
    }

    fn insertion_neighbors(&self, side: Side, price_wad: i128, predecessor: Option<u64>) -> (result: Result<
        (Option<u64>, Option<u64>),
        Error,
    >)
        ensures
            result == neighbors(self.book(), side, price_wad as int, predecessor),
    {
        let successor: Option<u64> = match predecessor {
            Some(id) => match self.get_order(id) {
                None => {
                    return Err(Error::InvalidPredecessor);
                },
                Some(previous) => {
                    if previous.side != side || !ordered_before(
                        side,
                        previous.price_wad,
                        price_wad,
                        false,
                    ) {
                        return Err(Error::InvalidPredecessor);
                    }
                    previous.next
                },
            },
            None => self.head(side),
        };
        match successor {
            None => {},
            Some(id) => match self.get_order(id) {
                None => {
                    return Err(Error::InvalidPredecessor);
                },
                Some(next) => {
                    if next.side != side || !ordered_before(side, price_wad, next.price_wad, true) {
                        return Err(Error::InvalidPredecessor);
                    }
                },
            },
        }
        Ok((predecessor, successor))
    }

    /// Joins a new order's neighbors to it and stores it.
    fn link_order(&mut self, order: Order)
        requires
            old(self).open < u64::MAX,
            order.prev matches Some(id) ==> old(self).orders@.contains_key(id) && old(self).orders@[id].id == id && id != order.id,
            order.next matches Some(id) ==> old(self).orders@.contains_key(id) && old(self).orders@[id].id == id && id != order.id,
        ensures
            final(self).book() == placed(old(self).book(), order),
            final(self).settings == old(self).settings,
            final(self).next_order_id == old(self).next_order_id,
    {
        match order.prev {
            Some(prev_id) => {
                if let Some(prev) = self.get_order(prev_id) {
                    self.write_order(Order { next: Some(order.id), ..prev });
                }
            },
            None => {
                self.set_head(order.side, Some(order.id));
            },
        }
        match order.next {
            Some(next_id) => {
                if let Some(next) = self.get_order(next_id) {
                    self.write_order(Order { prev: Some(order.id), ..next });
                }
            },
            None => {},
        }
        self.write_order(order);
        self.open = self.open + 1;
    }

    /// Takes an order off the book and joins its neighbors.
    fn remove_order(&mut self, order: Order) -> (result: Result<(), Error>)
        requires
            old(self).valid(),
            old(self).orders@.contains_key(order.id),
            order.prev == old(self).orders@[order.id].prev,
            order.next == old(self).orders@[order.id].next,
            order.side == old(self).orders@[order.id].side,
        ensures
            final(self).settings == old(self).settings,
            final(self).next_order_id == old(self).next_order_id,
            final(self).valid(),
            match removal(old(self).book(), old(self).orders@[order.id]) {
                Ok(rest) => result == Ok::<(), Error>(()) && final(self).book() == rest,
                Err(error) => result == Err::<(), Error>(error) && final(self).book() == old(self).book(),
            },
    {
        if let Some(prev_id) = order.prev {
            if self.get_order(prev_id).is_none() {
                return Err(Error::OrderNotFound);
            }
        }
        if let Some(next_id) = order.next {
            if self.get_order(next_id).is_none() {
                return Err(Error::OrderNotFound);
            }
        }
        if self.open == 0 {
            return Err(Error::MathOverflow);
        }
        match order.prev {
            Some(prev_id) => {
                if let Some(prev) = self.get_order(prev_id) {
                    self.write_order(Order { next: order.next, ..prev });
                }
            },
            None => {
                self.set_head(order.side, order.next);
            },
        }
        match order.next {
            Some(next_id) => {
                if let Some(next) = self.get_order(next_id) {
                    self.write_order(Order { prev: order.prev, ..next });
                }
            },
            None => {},
        }
        self.orders.remove(&order.id);
        self.open = self.open - 1;
        Ok(())
    }

    /// Places a non-marketable resting order after the predecessor the caller
    /// names; the neighbors' prices decide whether that keeps the priority.
    pub fn place_order(
        &mut self,
        env: &Env,
        now: u64,
        maker: u64,
        side: Side,
        base_amount: i128,
        price_wad: i128,
        expiry: u64,
        predecessor: Option<u64>,
    ) -> (result: Result<Placement, Error>)
        requires
            old(self).valid(),
            !old(self).orders@.contains_key(old(self).next_order_id),
        ensures
            final(self).valid(),
            final(self).settings == old(self).settings,
            old(self).well_formed() ==> final(self).well_formed(),
            match old(self).placing(
                now,
                maker,
                side,
                base_amount as int,
                price_wad as int,
                expiry,
                predecessor,
            ) {
                Err(error) => {
                    &&& result == Err::<Placement, Error>(error)
                    &&& final(self).book() == old(self).book()
                    &&& final(self).next_order_id == old(self).next_order_id
                },
                Ok(order) => {
                    &&& result == Ok::<Placement, Error>(
                        Placement {
                            event: OrderPlaced {
                                id: order.id,
                                maker,
                                side,
                                price_wad,
                                base_amount,
                                expiry,
                            },
                            escrow: Transfer {
                                asset: match side {
                                    Side::Ask => Asset::Pt,
                                    Side::Bid => Asset::Sy,
                                },
                                from: Party::Account(maker),
                                to: Party::Escrow,
                                amount: order.escrow_remaining,
                            },
                        },
                    )
                    &&& final(self).book() == placed(old(self).book(), order)
                    &&& final(self).next_order_id == order.id + 1
                },
            },
    {
        let config: Config = self.read_live_config(now)?;
        if base_amount <= 0 {
            return Err(Error::InvalidAmount);
        }
        if price_wad <= 0 {
            return Err(Error::InvalidPrice);
        }
        if expiry <= now || expiry > config.maturity || expiry - now > MAX_ORDER_LIFETIME_SECONDS {
            return Err(Error::InvalidExpiry);
        }
        self.reject_crossing_order(side, price_wad)?;
        if self.next_order_id == u64::MAX {
            return Err(Error::MathOverflow);
        }
        let id: u64 = self.next_order_id;
        let (prev, next) = self.insertion_neighbors(side, price_wad, predecessor)?;
        let escrow_remaining: i128 = match side {
            Side::Ask => base_amount,
            Side::Bid => cumulative_quote(env, base_amount, price_wad)?,
        };
        if self.open == u64::MAX {
            return Err(Error::MathOverflow);
        }
        let order: Order = Order {
            id,
            maker,
            side,
            price_wad,
            original_base: base_amount,
            remaining_base: base_amount,
            escrow_remaining,
            expiry,
            created_at: now,
            prev,
            next,
        };
        proof {
            lemma_quote_order(0, base_amount as int, price_wad as int);
            if self.well_formed() {
                lemma_place(self.book(), order);
            }
        }
        self.link_order(order);
        self.next_order_id = id + 1;
        Ok(
            Placement {
                event: OrderPlaced { id, maker, side, price_wad, base_amount, expiry },
                escrow: Transfer {
                    asset: match side {
                        Side::Ask => Asset::Pt,
                        Side::Bid => Asset::Sy,
                    },
                    from: Party::Account(maker),
                    to: Party::Escrow,
                    amount: escrow_remaining,
                },
            },
        )
    }

    /// Fills the best resting order on `resting_side` at the maker's price.
    /// `limit_price_wad` is a maximum when taking an ask and a minimum when
    /// taking a bid.
    pub fn fill_best(
        &mut self,
        env: &Env,
        now: u64,
        taker: u64,
        resting_side: Side,
        base_amount: i128,
        limit_price_wad: i128,
    ) -> (result: Result<Fill, Error>)
        requires
            old(self).valid(),
        ensures
            final(self).valid(),
            final(self).settings == old(self).settings,
            final(self).next_order_id == old(self).next_order_id,
            old(self).well_formed() ==> final(self).well_formed(),
            match old(self).best_fill(
                now,
                taker,
                resting_side,
                base_amount as int,
                limit_price_wad as int,
            ) {
                Err(error) => {
                    &&& result matches Err(refused) && refused == error
                    &&& final(self).book() == old(self).book()
                },
                Ok(outcome) => {
                    &&& result matches Ok(fill) && {
                        &&& fill.receipt == outcome.0
                        &&& fill.event == (OrderFilled {
                            id: outcome.0.order_id,
                            maker: outcome.0.maker,
                            taker,
                            base_filled: base_amount,
                            quote_amount: outcome.0.quote_amount,
                            taker_fee: outcome.0.taker_fee,
                            remaining_base: outcome.0.remaining_base,
                        })
                        &&& fill.transfers@ == fill_transfers(
                            old(self).settings->Some_0,
                            outcome.0,
                        )
                    }
                    &&& final(self).book() == outcome.1
                },
            },
            result matches Ok(fill) ==> (old(self).settings matches Some(config) && {
                let (quoted, fee) = (fill.receipt.quote_amount, fill.receipt.taker_fee);
                fee * 10_000 <= quoted * config.taker_fee_bps < (fee + 1) * 10_000
            }),
    {
        let config: Config = self.read_live_config(now)?;
        if base_amount <= 0 {
            return Err(Error::InvalidAmount);
        }
        if limit_price_wad <= 0 {
            return Err(Error::InvalidPrice);
        }
        let order: Order = match self.best_order(resting_side) {
            Some(order) => order,
            None => {
                return Err(Error::OrderNotFound);
            },
        };
        if order.side != resting_side {
            return Err(Error::WrongSide);
        }
        if order.expiry <= now {
            return Err(Error::OrderExpired);
        }
        if ordered_before(resting_side, limit_price_wad, order.price_wad, true) {
            return Err(Error::LimitPriceExceeded);
        }
        if base_amount > order.remaining_base {
            return Err(Error::InvalidAmount);
        }
        let filled_before: i128 = order.original_base - order.remaining_base;
        proof {
            let price: int = order.price_wad as int;
            lemma_quote_order(filled_before as int, filled_before + base_amount, price);
            lemma_quote_order(filled_before + base_amount, order.original_base as int, price);
            lemma_quote_order(0, filled_before as int, price);
        }
        let quote_after: i128 = cumulative_quote(env, filled_before + base_amount, order.price_wad)?;
        let quote_before: i128 = cumulative_quote(env, filled_before, order.price_wad)?;
        let quote_amount: i128 = quote_after - quote_before;
        if quote_amount <= 0 {
            return Err(Error::InvalidAmount);
        }
        let taker_fee: i128 = taker_fee_on(env, quote_amount, config.taker_fee_bps);
        proof {
            lemma_fee_floor(quote_amount as int, config.taker_fee_bps as int);
        }
        let remaining_base: i128 = order.remaining_base - base_amount;
        let receipt: FillReceipt = FillReceipt {
            order_id: order.id,
            maker: order.maker,
            taker,
            side: resting_side,
            base_filled: base_amount,
            quote_amount,
            taker_fee,
            remaining_base,
        };
        let mut transfers: Vec<Transfer> = Vec::new();
        let taking: Party = Party::Account(taker);
        let making: Party = Party::Account(order.maker);
        let collecting: Party = Party::Account(config.fee_recipient);
        let escrow_used: i128 = match resting_side {
            Side::Ask => {
                let total_due: i128 = match quote_amount.checked_add(taker_fee) {
                    Some(total_due) => total_due,
                    None => {
                        return Err(Error::MathOverflow);
                    },
                };
                push_transfer(&mut transfers, Asset::Sy, taking, Party::Escrow, total_due);
                push_transfer(&mut transfers, Asset::Sy, Party::Escrow, making, quote_amount);
                push_transfer(&mut transfers, Asset::Sy, Party::Escrow, collecting, taker_fee);
                push_transfer(&mut transfers, Asset::Pt, Party::Escrow, taking, base_amount);
                base_amount
            },
            Side::Bid => {
                if quote_amount > order.escrow_remaining {
                    return Err(Error::MathOverflow);
                }
                push_transfer(&mut transfers, Asset::Pt, taking, Party::Escrow, base_amount);
                push_transfer(&mut transfers, Asset::Pt, Party::Escrow, making, base_amount);
                push_transfer(
                    &mut transfers,
                    Asset::Sy,
                    Party::Escrow,
                    taking,
                    quote_amount - taker_fee,
                );
                push_transfer(&mut transfers, Asset::Sy, Party::Escrow, collecting, taker_fee);
                quote_amount
            },
        };
        proof {
            assert(transfers@ =~= fill_transfers(config, receipt));
            if self.well_formed() {
                lemma_close(self.book(), self.next_order_id, order.id);
                lemma_fill(
                    self.book(),
                    self.next_order_id,
                    order.id,
                    base_amount as int,
                    quote_amount as int,
                );
            }
        }
        if remaining_base == 0 {
            self.remove_order(order)?;
        } else {
            self.write_order(
                Order {
                    remaining_base,
                    escrow_remaining: order.escrow_remaining - escrow_used,
                    ..order
                },
            );
        }
        Ok(
            Fill {
                receipt,
                event: OrderFilled {
                    id: order.id,
                    maker: order.maker,
                    taker,
                    base_filled: base_amount,
                    quote_amount,
                    taker_fee,
                    remaining_base,
                },
                transfers,
            },
        )
    }

    /// Takes an order off the book and refunds what it still escrows.
    fn close_order(&mut self, order: Order, expired: bool) -> (result: Result<Closed, Error>)
        requires
            old(self).valid(),
            old(self).orders@.contains_key(order.id),
            order == old(self).orders@[order.id],
        ensures
            final(self).valid(),
            final(self).settings == old(self).settings,
            final(self).next_order_id == old(self).next_order_id,
            old(self).well_formed() ==> final(self).well_formed() && result is Ok,
            match removal(old(self).book(), order) {
                Ok(rest) => result == Ok::<Closed, Error>(closed(order, expired)) && final(self).book() == rest,
                Err(error) => result == Err::<Closed, Error>(error) && final(self).book() == old(self).book(),
            },
    {
        proof {
            if self.well_formed() {
                lemma_close(self.book(), self.next_order_id, order.id);
            }
        }
        self.remove_order(order)?;
        Ok(
            Closed {
                event: OrderCancelled {
                    id: order.id,
                    maker: order.maker,
                    remaining_base: order.remaining_base,
                    expired,
                },
                refund: Transfer {
                    asset: match order.side {
                        Side::Ask => Asset::Pt,
                        Side::Bid => Asset::Sy,
                    },
                    from: Party::Escrow,
                    to: Party::Account(order.maker),
                    amount: order.escrow_remaining,
                },
            },
        )
    }

    pub fn cancel_order(&mut self, maker: u64, order_id: u64) -> (result: Result<Closed, Error>)
        requires
            old(self).valid(),
        ensures
            final(self).valid(),
            final(self).settings == old(self).settings,
            final(self).next_order_id == old(self).next_order_id,
            old(self).well_formed() ==> final(self).well_formed(),
            result is Err ==> final(self).book() == old(self).book(),
            if old(self).settings is None {
                result == Err::<Closed, Error>(Error::NotInitialized)
            } else if !old(self).orders@.contains_key(order_id) {
                result == Err::<Closed, Error>(Error::OrderNotFound)
            } else if old(self).orders@[order_id].maker != maker {
                result == Err::<Closed, Error>(Error::NotMaker)
            } else {
                match removal(old(self).book(), old(self).orders@[order_id]) {
                    Ok(rest) => result == Ok::<Closed, Error>(
                        closed(old(self).orders@[order_id], false),
                    ) && final(self).book() == rest,
                    Err(error) => result == Err::<Closed, Error>(error),
                }
            },
    {
        self.config()?;
        match self.get_order(order_id) {
            None => Err(Error::OrderNotFound),
            Some(order) => {
                if order.maker != maker {
                    return Err(Error::NotMaker);
                }
                self.close_order(order, false)
            },
        }
    }

    /// Removes expired orders from the head of a side, up to `max_orders`, and
    /// refunds their makers. Anyone may ask for it.
    pub fn prune_expired(&mut self, now: u64, side: Side, max_orders: u32) -> (result: Result<
        Vec<Closed>,
        Error,
    >)
        requires
            old(self).valid(),
        ensures
            final(self).valid(),
            final(self).settings == old(self).settings,
            final(self).next_order_id == old(self).next_order_id,
            old(self).well_formed() ==> final(self).well_formed(),
            result is Err ==> final(self).book() == old(self).book(),
            if old(self).settings is None {
                result matches Err(error) && error == Error::NotInitialized
            } else if max_orders == 0 || max_orders > MAX_PAGE_SIZE {
                result matches Err(error) && error == Error::PageTooLarge
            } else {
                match pruning(old(self).book(), side, now, max_orders as nat) {
                    Ok(pruned) => (result matches Ok(done) && done@ == pruned.1) && final(self).book() == pruned.0,
                    Err(refused) => result matches Err(error) && error == refused,
                }
            },
    {
        self.config()?;
        if max_orders == 0 || max_orders > MAX_PAGE_SIZE {
            return Err(Error::PageTooLarge);
        }
        let saved: BTreeMap<u64, Order> = self.orders.clone();
        let saved_ask: Option<u64> = self.ask_head;
        let saved_bid: Option<u64> = self.bid_head;
        let saved_open: u64 = self.open;
        let mut done: Vec<Closed> = Vec::new();
        let mut left: u32 = max_orders;
        let mut failure: Option<Error> = None;
        let ghost whole = pruning(self.book(), side, now, max_orders as nat);
        let ghost start: Orderbook = *self;
        while left > 0
            invariant_except_break
                failure is None,
                match pruning(self.book(), side, now, left as nat) {
                    Ok(rest) => whole == Ok::<(Book, Seq<Closed>), Error>((rest.0, done@ + rest.1)),
                    Err(error) => whole == Err::<(Book, Seq<Closed>), Error>(error),
                },
            invariant
                self.valid(),
                self.settings == start.settings,
                self.next_order_id == start.next_order_id,
                start.well_formed() ==> self.well_formed(),
            ensures
                failure is None ==> whole == Ok::<(Book, Seq<Closed>), Error>((self.book(), done@)),
                failure matches Some(error) ==> whole == Err::<(Book, Seq<Closed>), Error>(error),
            decreases left,
        {
            let id: u64 = match self.head(side) {
                Some(id) => id,
                None => {
                    assert(done@ + Seq::<Closed>::empty() =~= done@);
                    break ;
                },
            };
            match self.get_order(id) {
                None => {
                    failure = Some(Error::OrderNotFound);
                    break ;
                },
                Some(order) => {
                    if order.expiry > now {
                        assert(done@ + Seq::<Closed>::empty() =~= done@);
                        break ;
                    }
                    let ghost before: Seq<Closed> = done@;
                    match self.close_order(order, true) {
                        Err(error) => {
                            failure = Some(error);
                            break ;
                        },
                        Ok(item) => {
                            proof {
                                match pruning(self.book(), side, now, (left - 1) as nat) {
                                    Ok(rest) => {
                                        assert(before + (seq![item] + rest.1) =~= before.push(item)
                                            + rest.1);
                                    },
                                    Err(_) => {},
                                }
                            }
                            done.push(item);
                            left = left - 1;
                            assert(done@ + Seq::<Closed>::empty() =~= done@);
                        },
                    }
                },
            }
        }
        match failure {
            None => Ok(done),
            Some(error) => {
                self.orders = saved;
                self.ask_head = saved_ask;
                self.bid_head = saved_bid;
                self.open = saved_open;
                Err(error)
            },
        }
    }
}

// ---------------------------------------------------------------------------
// Laws
// ---------------------------------------------------------------------------

/// Filling an order in two parts costs what filling it in one does, however the
/// parts round.
pub proof fn law_partial_fills_telescope(order: Order, first: int, second: int)
    requires
        order.valid(),
        0 <= first,
        0 <= second,
        first + second <= order.remaining_base,
    ensures
        fill_quote(order, first) + fill_quote(
            (Order { remaining_base: (order.remaining_base - first) as i128, ..order }),
            second,
        ) == fill_quote(order, first + second),
{
}

/// What a bid escrows is what is left to pay on it: filling the rest of it uses
/// the escrow up exactly.
pub proof fn law_bid_escrow_covers_the_rest(order: Order)
    requires
        order.valid(),
        order.side == Side::Bid,
    ensures
        order.escrow_remaining == fill_quote(order, order.remaining_base as int),
        order.escrow_remaining >= 0,
{
    lemma_quote_order(
        order.original_base - order.remaining_base,
        order.original_base as int,
        order.price_wad as int,
    );
}

/// A fill's transfers balance the escrow: what comes in with the fill plus what
/// the order gives up is exactly what goes out.
pub proof fn law_fill_balances(config: Config, order: Order, receipt: FillReceipt)
    requires
        receipt.side == order.side,
        receipt.quote_amount > 0,
        receipt.base_filled > 0,
        0 <= receipt.taker_fee < receipt.quote_amount,
        order.side == Side::Ask ==> fits(receipt.quote_amount + receipt.taker_fee),
    ensures
        escrow_change(fill_transfers(config, receipt), Asset::Pt) == -(match order.side {
            Side::Ask => receipt.base_filled as int,
            Side::Bid => 0,
        }),
        escrow_change(fill_transfers(config, receipt), Asset::Sy) == -(match order.side {
            Side::Ask => 0,
            Side::Bid => receipt.quote_amount as int,
        }),
{
    reveal_with_fuel(escrow_change, 6);
    let transfers = fill_transfers(config, receipt);
    match order.side {
        Side::Ask => {
            if receipt.taker_fee > 0 {
                assert(transfers.len() == 4);
                assert(transfers.drop_last().drop_last().drop_last().drop_last().len() == 0);
            } else {
                assert(transfers.len() == 3);
                assert(transfers.drop_last().drop_last().drop_last().len() == 0);
            }
        },
        Side::Bid => {
            if receipt.taker_fee > 0 {
                assert(transfers.len() == 4);
                assert(transfers.drop_last().drop_last().drop_last().drop_last().len() == 0);
            } else {
                assert(transfers.len() == 3);
                assert(transfers.drop_last().drop_last().drop_last().len() == 0);
            }
        },
    }
}

/// What a run of transfers adds to the book's escrow of one asset.
pub open spec fn escrow_change(transfers: Seq<Transfer>, asset: Asset) -> int
    decreases transfers.len(),
{
    if transfers.len() == 0 {
        0
    } else {
        let last = transfers.last();
        escrow_change(transfers.drop_last(), asset) + (if last.asset != asset {
            0int
        } else if last.to == Party::Escrow && last.from != Party::Escrow {
            last.amount as int
        } else if last.from == Party::Escrow && last.to != Party::Escrow {
            -last.amount
        } else {
            0
        })
    }
}

/// What a run of transfers adds to one party's holding of an asset.
pub open spec fn received(transfers: Seq<Transfer>, party: Party, asset: Asset) -> int
    decreases transfers.len(),
{
    if transfers.len() == 0 {
        0
    } else {
        let last = transfers.last();
        received(transfers.drop_last(), party, asset) + (if last.asset == asset && last.to == party {
            last.amount as int
        } else {
            0
        }) - (if last.asset == asset && last.from == party {
            last.amount as int
        } else {
            0
        })
    }
}

/// Two orders that differ at most in their links.
pub open spec fn same_terms(a: Order, b: Order) -> bool {
    &&& a.id == b.id
    &&& a.maker == b.maker
    &&& a.side == b.side
    &&& a.price_wad == b.price_wad
    &&& a.original_base == b.original_base
    &&& a.remaining_base == b.remaining_base
    &&& a.escrow_remaining == b.escrow_remaining
    &&& a.expiry == b.expiry
    &&& a.created_at == b.created_at
}

proof fn lemma_removed_keeps_others(book: Book, order: Order)
    requires
        orders_valid(book.orders),
        book.orders.contains_key(order.id),
        book.orders[order.id] == order,
        removal(book, order) is Ok,
    ensures
        ({
            let rest = removal(book, order)->Ok_0;
            &&& rest.orders.dom() =~= book.orders.dom().remove(order.id)
            &&& rest.open == book.open - 1
            &&& forall|other: u64| #[trigger]
                rest.orders.contains_key(other) ==> same_terms(rest.orders[other], book.orders[other])
        }),
{
    let rest = removed(book, order);
    assert(rest.orders.dom() =~= book.orders.dom().remove(order.id));
    assert forall|other: u64| #[trigger] rest.orders.contains_key(other) implies same_terms(
        rest.orders[other],
        book.orders[other],
    ) by {
        assert(book.orders.contains_key(other));
        if let Some(id) = order.prev {
            assert(book.orders.contains_key(id));
        }
        if let Some(id) = order.next {
            assert(book.orders.contains_key(id));
        }
    }
}

/// What a fill of the best order is: the taker trades with that order's maker,
/// at that order's price and no worse than the limit. `paid` being what the part
/// filled before comes to, rounded up, and `due` what it comes to with this fill,
/// the quote is the difference; from an untouched order it is the price rounded
/// up. On either side the fee is the configured rate of the quote, rounded down.
/// The order gives up the PT it sold or the SY it paid, and leaves the book with
/// its last unit; no other order's terms change.
pub proof fn law_fill_terms(
    book: Orderbook,
    now: u64,
    taker: u64,
    side: Side,
    base: i128,
    limit: i128,
    paid: int,
    due: int,
)
    requires
        book.valid(),
        book.best_fill(now, taker, side, base as int, limit as int) is Ok,
    ensures
        ({
            let (receipt, rest) = book.best_fill(now, taker, side, base as int, limit as int)->Ok_0;
            let config = book.settings->0;
            let id = (match side {
                Side::Ask => book.ask_head,
                Side::Bid => book.bid_head,
            })->0;
            let order = book.orders@[id];
            let filled = order.original_base - order.remaining_base;
            let w = 1_000_000_000_000_000_000int;
            &&& book.settings is Some && book.orders@.contains_key(id)
            &&& order.side == side
            &&& now < config.maturity && now < order.expiry
            &&& 0 < base <= order.remaining_base
            &&& side == Side::Ask ==> order.price_wad <= limit
            &&& side == Side::Bid ==> order.price_wad >= limit
            &&& receipt.order_id == id
            &&& receipt.maker == order.maker
            &&& receipt.taker == taker
            &&& receipt.side == side
            &&& receipt.base_filled == base
            &&& receipt.remaining_base == order.remaining_base - base
            &&& receipt.quote_amount > 0
            &&& -w < receipt.quote_amount * w - base * order.price_wad < w
            &&& filled == 0 ==> receipt.quote_amount * w >= base * order.price_wad
            &&& (paid - 1) * w < filled * order.price_wad <= paid * w && (due - 1) * w < (filled
                + base) * order.price_wad <= due * w ==> receipt.quote_amount == due - paid
            &&& receipt.taker_fee * 10_000 <= receipt.quote_amount * config.taker_fee_bps
            &&& receipt.quote_amount * config.taker_fee_bps < (receipt.taker_fee + 1) * 10_000
            &&& base == order.remaining_base ==> !rest.orders.contains_key(id) && rest.open
                == book.open - 1
            &&& base < order.remaining_base ==> rest.open == book.open && rest.orders.contains_key(
                id,
            ) && rest.orders[id] == (Order {
                remaining_base: (order.remaining_base - base) as i128,
                escrow_remaining: (order.escrow_remaining - (match side {
                    Side::Ask => base,
                    Side::Bid => receipt.quote_amount,
                })) as i128,
                ..order
            })
            &&& forall|other: u64|
                other != id ==> {
                    &&& #[trigger] rest.orders.contains_key(other) == book.orders@.contains_key(
                        other,
                    )
                    &&& rest.orders.contains_key(other) ==> same_terms(
                        rest.orders[other],
                        book.orders@[other],
                    )
                }
        }),
{
    let config = book.settings->0;
    let (receipt, rest) = book.best_fill(now, taker, side, base as int, limit as int)->Ok_0;
    let id = book.book().head(side)->0;
    let order = book.orders@[id];
    let w = 1_000_000_000_000_000_000int;
    let price: int = order.price_wad as int;
    let filled: int = order.original_base - order.remaining_base;
    lemma_quote_order(filled, filled + base, price);
    lemma_quote_order(0, filled, price);
    lemma_ceil(filled * price, w);
    lemma_ceil((filled + base) * price, w);
    let a: int = quote(filled, price);
    let b: int = quote(filled + base, price);
    assert((filled + base) * price == filled * price + base * price) by (nonlinear_arith);
    assert(receipt.quote_amount == b - a);
    assert((b - a) * w == b * w - a * w) by (nonlinear_arith);
    if (paid - 1) * w < filled * price <= paid * w && (due - 1) * w < (filled + base) * price <= due
        * w {
        assert(paid == a && due == b) by (nonlinear_arith)
            requires
                (paid - 1) * w < filled * price <= paid * w,
                (due - 1) * w < (filled + base) * price <= due * w,
                a * w - w < filled * price <= a * w,
                b * w - w < (filled + base) * price <= b * w,
                w == 1_000_000_000_000_000_000,
        ;
    }
    lemma_fee_floor(b - a, config.taker_fee_bps as int);
    if base == order.remaining_base {
        lemma_removed_keeps_others(book.book(), order);
    } else {
        lemma_quote_order(filled + base, order.original_base as int, price);
    }
}

/// The fee is within the quote, and is the quotient that a division leaves.
proof fn lemma_fee_floor(amount: int, fee_bps: int)
    requires
        amount > 0,
        0 <= fee_bps <= MAX_TAKER_FEE_BPS,
    ensures
        0 <= fee_on(amount, fee_bps) < amount,
        fee_on(amount, fee_bps) * 10_000 <= amount * fee_bps,
        amount * fee_bps < (fee_on(amount, fee_bps) + 1) * 10_000,
{
    let n: int = amount * fee_bps;
    assert(0 <= n <= amount * 1_000) by (nonlinear_arith)
        requires
            n == amount * fee_bps,
            amount > 0,
            0 <= fee_bps <= 1_000,
    ;
    lemma_floor(n, 10_000);
}

/// When a fill is owed: in a book in priority order, an order that is live, at a
/// price within the limit and large enough, is filled wherever the sums are in
/// range and there is something to pay. `paid`, `due` and `fee` are what the
/// order was quoted before, what it is quoted with this fill, and the taker's
/// fee on the difference.
pub proof fn law_fill_is_owed(
    book: Orderbook,
    now: u64,
    taker: u64,
    side: Side,
    base: i128,
    limit: i128,
    paid: int,
    due: int,
    fee: int,
)
    requires
        book.valid(),
        book.well_formed(),
        book.settings matches Some(config) && {
            &&& now < config.maturity
            &&& fee * 10_000 <= (due - paid) * config.taker_fee_bps < (fee + 1) * 10_000
        },
        (match side {
            Side::Ask => book.ask_head,
            Side::Bid => book.bid_head,
        }) matches Some(id) && book.orders@.contains_key(id) && {
            let order = book.orders@[id];
            let filled = order.original_base - order.remaining_base;
            let w = 1_000_000_000_000_000_000int;
            &&& order.side == side
            &&& now < order.expiry
            &&& 0 < base <= order.remaining_base
            &&& limit > 0
            &&& side == Side::Ask ==> order.price_wad <= limit
            &&& side == Side::Bid ==> order.price_wad >= limit
            &&& (paid - 1) * w < filled * order.price_wad <= paid * w
            &&& (due - 1) * w < (filled + base) * order.price_wad <= due * w
        },
        paid < due <= i128::MAX,
        side == Side::Ask ==> due - paid + fee <= i128::MAX,
    ensures
        book.best_fill(now, taker, side, base as int, limit as int) is Ok,
{
    let config = book.settings->0;
    let id = book.book().head(side)->0;
    let order = book.orders@[id];
    let w = 1_000_000_000_000_000_000int;
    let price: int = order.price_wad as int;
    let filled: int = order.original_base - order.remaining_base;
    lemma_ceil(filled * price, w);
    lemma_ceil((filled + base) * price, w);
    let a: int = quote(filled, price);
    let b: int = quote(filled + base, price);
    assert(paid == a && due == b) by (nonlinear_arith)
        requires
            (paid - 1) * w < filled * price <= paid * w,
            (due - 1) * w < (filled + base) * price <= due * w,
            a * w - w < filled * price <= a * w,
            b * w - w < (filled + base) * price <= b * w,
            w == 1_000_000_000_000_000_000,
    ;
    lemma_quote_order(filled, filled + base, price);
    lemma_quote_order(0, filled, price);
    lemma_fee_floor(b - a, config.taker_fee_bps as int);
    lemma_close(book.book(), book.next_order_id, id);
}

/// Who a fill pays. An ask's taker pays the quote and the fee in SY and gets the
/// PT; its maker gets the whole quote. A bid's taker delivers the PT and gets the
/// quote less the fee; its maker gets the PT. The fee goes to the recipient, and
/// the escrow gives up what the order had in it. One account in two parts gets
/// both.
pub proof fn law_fill_pays_everyone(config: Config, receipt: FillReceipt, account: u64)
    requires
        receipt.quote_amount > 0,
        receipt.base_filled > 0,
        0 <= receipt.taker_fee < receipt.quote_amount,
        receipt.side == Side::Ask ==> fits(receipt.quote_amount + receipt.taker_fee),
    ensures
        ({
            let transfers = fill_transfers(config, receipt);
            let (q, fee, base) = (
                receipt.quote_amount as int,
                receipt.taker_fee as int,
                receipt.base_filled as int,
            );
            let taking = account == receipt.taker;
            let making = account == receipt.maker;
            let collecting = account == config.fee_recipient;
            let ask = receipt.side == Side::Ask;
            &&& received(transfers, Party::Account(account), Asset::Sy) == (if taking {
                if ask {
                    -(q + fee)
                } else {
                    q - fee
                }
            } else {
                0
            }) + (if making && ask {
                q
            } else {
                0
            }) + (if collecting {
                fee
            } else {
                0
            })
            &&& received(transfers, Party::Account(account), Asset::Pt) == (if taking {
                if ask {
                    base
                } else {
                    -base
                }
            } else {
                0
            }) + (if making && !ask {
                base
            } else {
                0
            })
            &&& received(transfers, Party::Escrow, Asset::Sy) == (if ask {
                0
            } else {
                -q
            })
            &&& received(transfers, Party::Escrow, Asset::Pt) == (if ask {
                -base
            } else {
                0
            })
        }),
{
    reveal_with_fuel(received, 6);
    let transfers = fill_transfers(config, receipt);
    if receipt.taker_fee > 0 {
        assert(transfers.len() == 4);
        assert(transfers.drop_last().drop_last().drop_last().drop_last().len() == 0);
    } else {
        assert(transfers.len() == 3);
        assert(transfers.drop_last().drop_last().drop_last().len() == 0);
    }
}

/// What placing an order asks for and gives. The order is the maker's, under the
/// next number, for what was asked; an ask escrows its PT, and a bid the SY that
/// all of it comes to at its price, rounded up. It is accepted exactly where it
/// expires after now, by maturity and within ninety days, does not reach the best
/// price of the other side, fits between the neighbors its predecessor names,
/// and leaves every number in range. `due` is what the whole order comes to at
/// its price, rounded up.
pub proof fn law_placement_terms(
    book: Orderbook,
    now: u64,
    maker: u64,
    side: Side,
    base: i128,
    price: i128,
    expiry: u64,
    predecessor: Option<u64>,
    due: int,
)
    requires
        book.valid(),
        (due - 1) * 1_000_000_000_000_000_000 < base * price,
        base * price <= due * 1_000_000_000_000_000_000,
    ensures
        ({
            let orders = book.orders@;
            let best = match side {
                Side::Ask => book.bid_head,
                Side::Bid => book.ask_head,
            };
            let after = match predecessor {
                None => match side {
                    Side::Ask => book.ask_head,
                    Side::Bid => book.bid_head,
                },
                Some(id) => orders[id].next,
            };
            let placing = book.placing(
                now,
                maker,
                side,
                base as int,
                price as int,
                expiry,
                predecessor,
            );
            &&& placing is Ok <==> {
                &&& book.settings matches Some(config) && now < expiry <= config.maturity
                &&& expiry - now <= 7_776_000
                &&& base > 0 && price > 0
                &&& best matches Some(id) ==> orders.contains_key(id) ==> match side {
                    Side::Ask => price > orders[id].price_wad,
                    Side::Bid => price < orders[id].price_wad,
                }
                &&& predecessor matches Some(id) ==> orders.contains_key(id) && orders[id].side
                    == side && match side {
                    Side::Ask => orders[id].price_wad <= price,
                    Side::Bid => orders[id].price_wad >= price,
                }
                &&& after matches Some(id) ==> orders.contains_key(id) && orders[id].side == side
                    && match side {
                    Side::Ask => price < orders[id].price_wad,
                    Side::Bid => price > orders[id].price_wad,
                }
                &&& book.next_order_id < u64::MAX && book.open < u64::MAX
                &&& side == Side::Bid ==> due <= i128::MAX
            }
            &&& placing matches Ok(order) ==> {
                &&& order.id == book.next_order_id
                &&& order.maker == maker
                &&& order.side == side
                &&& order.price_wad == price
                &&& order.original_base == base
                &&& order.remaining_base == base
                &&& order.expiry == expiry
                &&& order.created_at == now
                &&& order.prev == predecessor
                &&& order.next == after
                &&& order.escrow_remaining == (match side {
                    Side::Ask => base as int,
                    Side::Bid => due,
                })
            }
        }),
{
    let w = 1_000_000_000_000_000_000int;
    if base > 0 && price > 0 {
        lemma_quote_order(base as int, base as int, price as int);
        lemma_ceil(base * price, w);
        let a: int = quote(base as int, price as int);
        assert(due == a) by (nonlinear_arith)
            requires
                (due - 1) * w < base * price <= due * w,
                a * w - w < base * price <= a * w,
                w == 1_000_000_000_000_000_000,
        ;
    }
}

/// Placing an order puts it on the book as it is, and changes no other order but
/// for the links of its neighbors.
pub proof fn law_placing_keeps_other_orders(book: Orderbook, order: Order)
    requires
        book.valid(),
        !book.orders@.contains_key(order.id),
        book.open < u64::MAX,
        order.prev matches Some(id) ==> book.orders@.contains_key(id),
        order.next matches Some(id) ==> book.orders@.contains_key(id),
    ensures
        ({
            let after = placed(book.book(), order);
            &&& after.orders.dom() =~= book.orders@.dom().insert(order.id)
            &&& after.orders[order.id] == order
            &&& after.open == book.open + 1
            &&& forall|other: u64| #[trigger]
                book.orders@.contains_key(other) ==> same_terms(
                    after.orders[other],
                    book.orders@[other],
                )
        }),
{
    assert(placed(book.book(), order).orders.dom() =~= book.orders@.dom().insert(order.id));
    if let Some(id) = order.prev {
        assert(book.orders@.contains_key(id));
    }
    if let Some(id) = order.next {
        assert(book.orders@.contains_key(id));
    }
}

/// Closing an order takes it, and nothing else, off the book, and pays what it
/// has left in escrow back to its maker, in the token its side escrows. In a book
/// in priority order it always succeeds.
pub proof fn law_closing_pays_the_maker(book: Orderbook, id: u64, expired: bool)
    requires
        book.valid(),
        book.orders@.contains_key(id),
    ensures
        ({
            let order = book.orders@[id];
            let done = closed(order, expired);
            &&& done.refund.from == Party::Escrow
            &&& done.refund.to == Party::Account(order.maker)
            &&& done.refund.amount == order.escrow_remaining
            &&& done.refund.asset == (if order.side == Side::Ask {
                Asset::Pt
            } else {
                Asset::Sy
            })
            &&& done.event.id == id
            &&& done.event.maker == order.maker
            &&& done.event.remaining_base == order.remaining_base
            &&& done.event.expired == expired
            &&& book.well_formed() ==> removal(book.book(), order) is Ok
            &&& removal(book.book(), order) matches Ok(rest) ==> {
                &&& rest.orders.dom() =~= book.orders@.dom().remove(id)
                &&& rest.open == book.open - 1
                &&& forall|other: u64| #[trigger]
                    rest.orders.contains_key(other) ==> same_terms(
                        rest.orders[other],
                        book.orders@[other],
                    )
            }
        }),
{
    if book.well_formed() {
        lemma_close(book.book(), book.next_order_id, id);
    }
    if removal(book.book(), book.orders@[id]) is Ok {
        lemma_removed_keeps_others(book.book(), book.orders@[id]);
    }
}

proof fn lemma_pruned(book: Book, next_id: u64, side: Side, now: u64, limit: nat)
    requires
        orders_valid(book.orders),
        well_formed(book, next_id),
    ensures
        pruning(book, side, now, limit) matches Ok((rest, done)) && {
            &&& well_formed(rest, next_id)
            &&& done.len() <= limit
            &&& done.len() < limit ==> (rest.head(side) matches Some(id)
                ==> rest.orders.contains_key(id) && rest.orders[id].expiry > now)
            &&& forall|i: int|
                0 <= i < done.len() ==> {
                    let id = (#[trigger] done[i]).event.id;
                    &&& book.orders.contains_key(id)
                    &&& book.orders[id].side == side
                    &&& book.orders[id].expiry <= now
                    &&& done[i].event.expired
                    &&& done[i].event.maker == book.orders[id].maker
                    &&& done[i].refund.to == Party::Account(book.orders[id].maker)
                    &&& done[i].refund.from == Party::Escrow
                    &&& done[i].refund.amount == book.orders[id].escrow_remaining
                    &&& !rest.orders.contains_key(id)
                }
            &&& forall|id: u64| #[trigger]
                rest.orders.contains_key(id) ==> book.orders.contains_key(id) && same_terms(
                    rest.orders[id],
                    book.orders[id],
                )
            &&& forall|id: u64| #[trigger]
                book.orders.contains_key(id) ==> rest.orders.contains_key(id) || exists|i: int|
                    0 <= i < done.len() && (#[trigger] done[i]).event.id == id
        },
    decreases limit,
{
    if limit > 0 && book.head(side) is Some {
        let id = book.head(side)->0;
        lemma_head_is_stored(book, next_id, side);
        let order = book.orders[id];
        if order.expiry <= now {
            lemma_close(book, next_id, id);
            lemma_removed_keeps_others(book, order);
            let next = removed(book, order);
            assert forall|other: u64| #[trigger] next.orders.contains_key(other) implies next.orders[other].id
                == other && next.orders[other].valid() by {
                assert(book.orders.contains_key(other));
                assert(same_terms(next.orders[other], book.orders[other]));
            }
            lemma_pruned(next, next_id, side, now, (limit - 1) as nat);
            let (rest, later) = pruning(next, side, now, (limit - 1) as nat)->Ok_0;
            let done = seq![closed(order, true)] + later;
            assert forall|i: int| 0 <= i < done.len() implies {
                let k = (#[trigger] done[i]).event.id;
                &&& book.orders.contains_key(k)
                &&& book.orders[k].side == side
                &&& book.orders[k].expiry <= now
                &&& done[i].event.expired
                &&& done[i].event.maker == book.orders[k].maker
                &&& done[i].refund.to == Party::Account(book.orders[k].maker)
                &&& done[i].refund.from == Party::Escrow
                &&& done[i].refund.amount == book.orders[k].escrow_remaining
                &&& !rest.orders.contains_key(k)
            } by {
                if i > 0 {
                    assert(done[i] == later[i - 1]);
                    assert(next.orders.contains_key(later[i - 1].event.id));
                }
            }
            assert forall|k: u64| #[trigger] book.orders.contains_key(k) implies rest.orders.contains_key(
                k,
            ) || exists|i: int| 0 <= i < done.len() && (#[trigger] done[i]).event.id == k by {
                if k == id {
                    assert(done[0].event.id == id);
                } else {
                    assert(next.orders.contains_key(k));
                    if !rest.orders.contains_key(k) {
                        let i = choose|i: int|
                            0 <= i < later.len() && (#[trigger] later[i]).event.id == k;
                        assert(done[i + 1] == later[i]);
                    }
                }
            }
            assert forall|k: u64| #[trigger] rest.orders.contains_key(k) implies book.orders.contains_key(
                k,
            ) && same_terms(rest.orders[k], book.orders[k]) by {
                assert(next.orders.contains_key(k));
            }
        }
    }
}

/// Pruning a book in priority order succeeds. It closes only expired orders of
/// the side, each as expired and with its whole stake back to its maker, up to
/// the limit; it stops short of the limit only before an order that is live. What
/// it does not close stays as it was.
pub proof fn law_pruning_closes_only_the_expired(
    book: Orderbook,
    side: Side,
    now: u64,
    limit: nat,
)
    requires
        book.valid(),
        book.well_formed(),
    ensures
        pruning(book.book(), side, now, limit) matches Ok((rest, done)) && {
            &&& done.len() <= limit
            &&& done.len() < limit ==> ((match side {
                Side::Ask => rest.ask_head,
                Side::Bid => rest.bid_head,
            }) matches Some(id) ==> rest.orders.contains_key(id) && rest.orders[id].expiry > now)
            &&& forall|i: int|
                0 <= i < done.len() ==> {
                    let id = (#[trigger] done[i]).event.id;
                    &&& book.orders@.contains_key(id)
                    &&& book.orders@[id].side == side
                    &&& book.orders@[id].expiry <= now
                    &&& done[i].event.expired
                    &&& done[i].event.maker == book.orders@[id].maker
                    &&& done[i].refund.to == Party::Account(book.orders@[id].maker)
                    &&& done[i].refund.from == Party::Escrow
                    &&& done[i].refund.amount == book.orders@[id].escrow_remaining
                    &&& !rest.orders.contains_key(id)
                }
            &&& forall|id: u64| #[trigger]
                rest.orders.contains_key(id) ==> book.orders@.contains_key(id) && same_terms(
                    rest.orders[id],
                    book.orders@[id],
                )
            &&& forall|id: u64| #[trigger]
                book.orders@.contains_key(id) ==> rest.orders.contains_key(id) || exists|i: int|
                    0 <= i < done.len() && (#[trigger] done[i]).event.id == id
        },
{
    lemma_pruned(book.book(), book.next_order_id, side, now, limit);
}

/// Why a fill is refused, the first reason that holds: no book, a matured market,
/// nothing asked for, no limit, no order to fill, one of the wrong side, an
/// expired one, a price beyond the limit, or more asked for than is left.
pub proof fn law_fill_refusals(
    book: Orderbook,
    now: u64,
    taker: u64,
    side: Side,
    base: i128,
    limit: i128,
)
    ensures
        ({
            let result = book.best_fill(now, taker, side, base as int, limit as int);
            let head = match side {
                Side::Ask => book.ask_head,
                Side::Bid => book.bid_head,
            };
            let order = book.orders@[head->0];
            let beyond = match side {
                Side::Ask => limit < order.price_wad,
                Side::Bid => limit > order.price_wad,
            };
            let found = head is Some && book.orders@.contains_key(head->0);
            &&& book.settings is None ==> result->Err_0 == Error::NotInitialized && result is Err
            &&& book.settings matches Some(config) ==> {
                &&& now >= config.maturity ==> result is Err && result->Err_0
                    == Error::MarketMatured
                &&& now < config.maturity ==> {
                    &&& base <= 0 ==> result is Err && result->Err_0 == Error::InvalidAmount
                    &&& base > 0 && limit <= 0 ==> result is Err && result->Err_0
                        == Error::InvalidPrice
                    &&& base > 0 && limit > 0 && !found ==> result is Err && result->Err_0
                        == Error::OrderNotFound
                    &&& base > 0 && limit > 0 && found ==> {
                        &&& order.side != side ==> result is Err && result->Err_0
                            == Error::WrongSide
                        &&& order.side == side && order.expiry <= now ==> result is Err
                            && result->Err_0 == Error::OrderExpired
                        &&& order.side == side && order.expiry > now && beyond ==> result is Err
                            && result->Err_0 == Error::LimitPriceExceeded
                        &&& order.side == side && order.expiry > now && !beyond && base
                            > order.remaining_base ==> result is Err && result->Err_0
                            == Error::InvalidAmount
                    }
                }
            }
        }),
{
}

/// Why a placement is refused, the first reason that holds: no book, a matured
/// market, no amount, no price, an expiry that is past, beyond maturity or too far
/// off, a price that would trade, or a predecessor that does not fit.
pub proof fn law_placement_refusals(
    book: Orderbook,
    now: u64,
    maker: u64,
    side: Side,
    base: i128,
    price: i128,
    expiry: u64,
    predecessor: Option<u64>,
)
    ensures
        ({
            let result = book.placing(
                now,
                maker,
                side,
                base as int,
                price as int,
                expiry,
                predecessor,
            );
            let best = match side {
                Side::Ask => book.bid_head,
                Side::Bid => book.ask_head,
            };
            let trades = best is Some && book.orders@.contains_key(best->0) && match side {
                Side::Ask => price <= book.orders@[best->0].price_wad,
                Side::Bid => price >= book.orders@[best->0].price_wad,
            };
            &&& book.settings is None ==> result is Err && result->Err_0 == Error::NotInitialized
            &&& book.settings matches Some(config) ==> {
                let late = expiry <= now || expiry > config.maturity || expiry - now > 7_776_000;
                &&& now >= config.maturity ==> result is Err && result->Err_0
                    == Error::MarketMatured
                &&& now < config.maturity ==> {
                    &&& base <= 0 ==> result is Err && result->Err_0 == Error::InvalidAmount
                    &&& base > 0 && price <= 0 ==> result is Err && result->Err_0
                        == Error::InvalidPrice
                    &&& base > 0 && price > 0 && late ==> result is Err && result->Err_0
                        == Error::InvalidExpiry
                    &&& base > 0 && price > 0 && !late && trades ==> result is Err
                        && result->Err_0 == Error::OrderWouldCross
                    &&& base > 0 && price > 0 && !late && !trades && book.next_order_id < u64::MAX
                        && (predecessor matches Some(id) && !book.orders@.contains_key(id))
                        ==> result is Err && result->Err_0 == Error::InvalidPredecessor
                }
            }
        }),
{
}

} // verus!
