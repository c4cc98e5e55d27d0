use sidereal::orderbook::{
    cumulative_quote, ordered_before, require_fee, Asset, Closed, Error, Fill, FillReceipt,
    Orderbook, Party, Side, Transfer, MAX_TAKER_FEE_BPS,
};
use soroban_sdk::testutils::EnvTestConfig;
use soroban_sdk::Env;
use std::collections::BTreeMap;

const NOW: u64 = 1_780_000_000;
const MATURITY: u64 = NOW + 90 * 24 * 60 * 60;
const UNIT: i128 = 10_000_000;
const WAD: i128 = 1_000_000_000_000_000_000;
const PRICE: i128 = 950_000_000_000_000_000;

const ADMIN: u64 = 1;
const MAKER: u64 = 2;
const MAKER_TWO: u64 = 3;
const TAKER: u64 = 4;
const FEE_RECIPIENT: u64 = 5;
const PT: u64 = 6;
const SY: u64 = 7;
const ESCROW: u64 = 8;

fn host() -> Env {
    Env::new_with_config(EnvTestConfig {
        capture_snapshot_at_drop: false,
    })
}

struct Fixture {
    env: Env,
    now: u64,
    book: Orderbook,
    pt: BTreeMap<u64, i128>,
    sy: BTreeMap<u64, i128>,
}

fn fixture() -> Fixture {
    let mut book = Orderbook::new();
    book.initialize(NOW, ADMIN, PT, SY, MATURITY, FEE_RECIPIENT, 25)
        .unwrap();
    let mut pt = BTreeMap::new();
    let mut sy = BTreeMap::new();
    for who in [MAKER, MAKER_TWO, TAKER] {
        pt.insert(who, 1_000 * UNIT);
        sy.insert(who, 1_000 * UNIT);
    }
    Fixture {
        env: host(),
        now: NOW,
        book,
        pt,
        sy,
    }
}

fn account(party: Party) -> u64 {
    match party {
        Party::Escrow => ESCROW,
        Party::Account(id) => id,
    }
}

impl Fixture {
    fn apply(&mut self, transfer: &Transfer) {
        if transfer.amount <= 0 {
            return;
        }
        let ledger = match transfer.asset {
            Asset::Pt => &mut self.pt,
            Asset::Sy => &mut self.sy,
        };
        let from = ledger.entry(account(transfer.from)).or_insert(0);
        *from -= transfer.amount;
        assert!(*from >= 0, "an account went negative");
        *ledger.entry(account(transfer.to)).or_insert(0) += transfer.amount;
    }

    fn pt_of(&self, who: u64) -> i128 {
        *self.pt.get(&who).unwrap_or(&0)
    }

    fn sy_of(&self, who: u64) -> i128 {
        *self.sy.get(&who).unwrap_or(&0)
    }

    /// What the open orders of a side have left in escrow.
    fn staked(&self, side: Side) -> i128 {
        let orders = self.book.list_orders(side, None, 50).unwrap();
        orders.iter().map(|order| order.escrow_remaining).sum()
    }

    fn escrow_matches(&self) {
        assert_eq!(self.pt_of(ESCROW), self.staked(Side::Ask));
        assert_eq!(self.sy_of(ESCROW), self.staked(Side::Bid));
    }

    fn place(
        &mut self,
        maker: u64,
        side: Side,
        base: i128,
        price: i128,
        expiry: u64,
        predecessor: Option<u64>,
    ) -> Result<u64, Error> {
        let placed = self
            .book
            .place_order(&self.env, self.now, maker, side, base, price, expiry, predecessor)?;
        self.apply(&placed.escrow);
        Ok(placed.event.id)
    }

    fn fill(&mut self, taker: u64, side: Side, base: i128, limit: i128) -> Result<FillReceipt, Error> {
        let fill: Fill = self
            .book
            .fill_best(&self.env, self.now, taker, side, base, limit)?;
        for transfer in fill.transfers.iter() {
            self.apply(transfer);
        }
        Ok(fill.receipt)
    }

    fn cancel(&mut self, maker: u64, id: u64) -> Result<(), Error> {
        let closed: Closed = self.book.cancel_order(maker, id)?;
        self.apply(&closed.refund);
        Ok(())
    }

    fn prune(&mut self, side: Side, max: u32) -> Result<u32, Error> {
        let closed = self.book.prune_expired(self.now, side, max)?;
        for one in closed.iter() {
            assert!(one.event.expired);
            self.apply(&one.refund);
        }
        Ok(closed.len() as u32)
    }
}

#[test]
fn asks_are_price_time_ordered_and_escrowed() {
    let mut f = fixture();
    let later = f
        .place(MAKER, Side::Ask, 100 * UNIT, PRICE, NOW + 1_000, None)
        .unwrap();
    let better = f
        .place(
            MAKER_TWO,
            Side::Ask,
            50 * UNIT,
            PRICE - WAD / 100,
            NOW + 1_000,
            None,
        )
        .unwrap();
    let equal = f
        .place(
            MAKER_TWO,
            Side::Ask,
            25 * UNIT,
            PRICE,
            NOW + 1_000,
            Some(later),
        )
        .unwrap();

    let orders = f.book.list_orders(Side::Ask, None, 10).unwrap();
    assert_eq!(orders.len(), 3);
    assert_eq!(orders[0].id, better);
    assert_eq!(orders[1].id, later);
    assert_eq!(orders[2].id, equal);
    assert_eq!(f.book.open_count(), 3);
    assert_eq!(f.pt_of(ESCROW), 175 * UNIT);
}

#[test]
fn ask_partial_fill_charges_fee_and_preserves_priority() {
    let mut f = fixture();
    let id = f
        .place(MAKER, Side::Ask, 100 * UNIT, PRICE, NOW + 1_000, None)
        .unwrap();
    let maker_sy_before = f.sy_of(MAKER);
    let taker_pt_before = f.pt_of(TAKER);
    let receipt = f.fill(TAKER, Side::Ask, 40 * UNIT, PRICE).unwrap();

    assert_eq!(receipt.order_id, id);
    assert_eq!(receipt.quote_amount, 38 * UNIT);
    assert_eq!(receipt.taker_fee, 950_000);
    assert_eq!(receipt.remaining_base, 60 * UNIT);
    assert_eq!(f.sy_of(MAKER), maker_sy_before + 38 * UNIT);
    assert_eq!(f.pt_of(TAKER), taker_pt_before + 40 * UNIT);
    assert_eq!(f.sy_of(FEE_RECIPIENT), 950_000);
    assert_eq!(f.book.best_order(Side::Ask).unwrap().id, id);
}

#[test]
fn bid_fill_and_cancel_return_exact_escrow() {
    let mut f = fixture();
    let id = f
        .place(MAKER, Side::Bid, 100 * UNIT, PRICE, NOW + 1_000, None)
        .unwrap();
    let maker_sy_after_place = f.sy_of(MAKER);
    assert_eq!(f.sy_of(ESCROW), 95 * UNIT);

    let receipt = f.fill(TAKER, Side::Bid, 33 * UNIT, PRICE).unwrap();
    assert_eq!(receipt.quote_amount, 31_350_000_0);
    assert_eq!(f.book.get_order(id).unwrap().remaining_base, 67 * UNIT);
    f.cancel(MAKER, id).unwrap();

    assert_eq!(f.book.get_order(id), None);
    assert_eq!(f.book.open_count(), 0);
    assert_eq!(f.sy_of(ESCROW), 0);
    assert_eq!(
        f.sy_of(MAKER),
        maker_sy_after_place + (95 * UNIT - receipt.quote_amount)
    );
}

#[test]
fn partial_fill_rounding_telescopes_to_the_full_order_quote() {
    let mut f = fixture();
    let awkward_price = 923_456_789_012_345_678;
    let base = 101;
    let id = f
        .place(MAKER, Side::Bid, base, awkward_price, NOW + 1_000, None)
        .unwrap();
    let first = f.fill(TAKER, Side::Bid, 33, awkward_price).unwrap();
    let second = f.fill(TAKER, Side::Bid, 68, awkward_price).unwrap();

    assert_eq!(first.quote_amount + second.quote_amount, 94);
    assert_eq!(second.remaining_base, 0);
    assert_eq!(f.book.get_order(id), None);
    assert_eq!(f.sy_of(ESCROW), 0);
}

#[test]
fn crossing_orders_are_rejected_and_only_best_price_fills() {
    let mut f = fixture();
    f.place(MAKER, Side::Ask, 100 * UNIT, PRICE, NOW + 1_000, None)
        .unwrap();
    let crossing = f.place(MAKER_TWO, Side::Bid, 10 * UNIT, PRICE, NOW + 1_000, None);
    assert_eq!(crossing, Err(Error::OrderWouldCross));

    let protected = f.fill(TAKER, Side::Ask, 10 * UNIT, PRICE - 1);
    assert_eq!(protected.unwrap_err(), Error::LimitPriceExceeded);
}

#[test]
fn expired_orders_are_permissionlessly_pruned_and_refunded() {
    let mut f = fixture();
    let maker_before = f.pt_of(MAKER);
    let id = f
        .place(MAKER, Side::Ask, 100 * UNIT, PRICE, NOW + 10, None)
        .unwrap();
    f.now = NOW + 10;
    assert_eq!(f.prune(Side::Ask, 10), Ok(1));
    assert_eq!(f.book.get_order(id), None);
    assert_eq!(f.pt_of(MAKER), maker_before);
}

#[test]
fn only_admin_can_change_the_bounded_fee() {
    let mut f = fixture();
    let set = f.book.set_fee(ADMIN, 50).unwrap();
    assert_eq!((set.old_fee_bps, set.new_fee_bps), (25, 50));
    assert_eq!(f.book.config().unwrap().taker_fee_bps, 50);
    assert_eq!(f.book.set_fee(MAKER, 50), Err(Error::NotAdmin));
    assert_eq!(
        f.book.set_fee(ADMIN, MAX_TAKER_FEE_BPS + 1),
        Err(Error::InvalidFee)
    );
}

#[test]
fn maturity_stops_placement_and_fills_but_not_cancellation() {
    let mut f = fixture();
    let id = f
        .place(MAKER, Side::Ask, 100 * UNIT, PRICE, MATURITY, None)
        .unwrap();
    f.now = MATURITY;
    assert_eq!(
        f.fill(TAKER, Side::Ask, 10 * UNIT, PRICE).unwrap_err(),
        Error::MarketMatured
    );
    f.cancel(MAKER, id).unwrap();
    assert_eq!(f.book.open_count(), 0);
}

#[test]
fn orderbook_setup_is_checked() {
    let mut book = Orderbook::new();
    assert_eq!(book.config(), Err(Error::NotInitialized));
    assert_eq!(
        book.list_orders(Side::Ask, None, 1).unwrap_err(),
        Error::NotInitialized
    );
    assert_eq!(
        book.initialize(MATURITY, ADMIN, PT, SY, MATURITY, FEE_RECIPIENT, 0),
        Err(Error::InvalidMaturity)
    );
    assert_eq!(
        book.initialize(NOW, ADMIN, PT, SY, MATURITY, FEE_RECIPIENT, -1),
        Err(Error::InvalidFee)
    );
    assert_eq!(
        book.initialize(NOW, ADMIN, PT, SY, MATURITY, FEE_RECIPIENT, MAX_TAKER_FEE_BPS),
        Ok(())
    );
    assert_eq!(
        book.initialize(NOW, ADMIN, PT, SY, MATURITY, FEE_RECIPIENT, 0),
        Err(Error::AlreadyInitialized)
    );
    assert_eq!(require_fee(MAX_TAKER_FEE_BPS), Ok(()));
    assert_eq!(require_fee(MAX_TAKER_FEE_BPS + 1), Err(Error::InvalidFee));
}

#[test]
fn placement_refusals_name_their_reason() {
    let mut f = fixture();
    let expiry = NOW + 1_000;
    assert_eq!(
        f.place(MAKER, Side::Ask, 0, PRICE, expiry, None),
        Err(Error::InvalidAmount)
    );
    assert_eq!(
        f.place(MAKER, Side::Ask, 1, 0, expiry, None),
        Err(Error::InvalidPrice)
    );
    assert_eq!(
        f.place(MAKER, Side::Ask, 1, PRICE, NOW, None),
        Err(Error::InvalidExpiry)
    );
    assert_eq!(
        f.place(MAKER, Side::Ask, 1, PRICE, MATURITY + 1, None),
        Err(Error::InvalidExpiry)
    );
    let ask = f
        .place(MAKER, Side::Ask, 10, PRICE, expiry, None)
        .unwrap();
    assert_eq!(
        f.place(MAKER, Side::Ask, 10, PRICE, expiry, None),
        Err(Error::InvalidPredecessor),
        "an equal price queues behind, never in front"
    );
    assert_eq!(
        f.place(MAKER, Side::Ask, 10, PRICE - 1, expiry, Some(ask)),
        Err(Error::InvalidPredecessor)
    );
    assert_eq!(
        f.place(MAKER, Side::Bid, 10, PRICE - 1, expiry, Some(ask)),
        Err(Error::InvalidPredecessor)
    );
    assert_eq!(
        f.place(MAKER, Side::Ask, 10, PRICE, expiry, Some(99)),
        Err(Error::InvalidPredecessor)
    );
    f.now = MATURITY;
    assert_eq!(
        f.place(MAKER, Side::Ask, 10, PRICE, MATURITY + 5, None),
        Err(Error::MarketMatured)
    );
    assert_eq!(f.book.open_count(), 1);
}

#[test]
fn fill_refusals_name_their_reason() {
    let mut f = fixture();
    assert_eq!(
        f.fill(TAKER, Side::Ask, 0, PRICE).unwrap_err(),
        Error::InvalidAmount
    );
    assert_eq!(
        f.fill(TAKER, Side::Ask, 1, 0).unwrap_err(),
        Error::InvalidPrice
    );
    assert_eq!(
        f.fill(TAKER, Side::Ask, 1, PRICE).unwrap_err(),
        Error::OrderNotFound
    );
    f.place(MAKER, Side::Ask, 10, PRICE, NOW + 10, None).unwrap();
    assert_eq!(
        f.fill(TAKER, Side::Ask, 11, PRICE).unwrap_err(),
        Error::InvalidAmount
    );
    f.now = NOW + 10;
    assert_eq!(
        f.fill(TAKER, Side::Ask, 5, PRICE).unwrap_err(),
        Error::OrderExpired
    );
}

#[test]
fn only_the_maker_cancels() {
    let mut f = fixture();
    let id = f
        .place(MAKER, Side::Bid, 100 * UNIT, PRICE, NOW + 10, None)
        .unwrap();
    assert_eq!(f.cancel(TAKER, id), Err(Error::NotMaker));
    assert_eq!(f.cancel(MAKER, id + 1), Err(Error::OrderNotFound));
    f.cancel(MAKER, id).unwrap();
    assert_eq!(f.cancel(MAKER, id), Err(Error::OrderNotFound));
}

#[test]
fn pages_walk_the_queue_in_priority_order() {
    let mut f = fixture();
    let mut previous = None;
    let mut placed = Vec::new();
    for i in 0..5i128 {
        let id = f
            .place(MAKER, Side::Bid, UNIT, PRICE - i, NOW + 10, previous)
            .unwrap();
        previous = Some(id);
        placed.push(id);
    }
    let ids = |orders: Vec<sidereal::orderbook::Order>| -> Vec<u64> {
        orders.iter().map(|order| order.id).collect()
    };
    assert_eq!(
        ids(f.book.list_orders(Side::Bid, None, 2).unwrap()),
        placed[..2].to_vec()
    );
    assert_eq!(
        ids(f.book.list_orders(Side::Bid, Some(placed[1]), 50).unwrap()),
        placed[2..].to_vec()
    );
    assert_eq!(f.book.best_order(Side::Bid).unwrap().id, placed[0]);
    assert_eq!(
        f.book.list_orders(Side::Bid, None, 0).unwrap_err(),
        Error::PageTooLarge
    );
    assert_eq!(
        f.book.list_orders(Side::Bid, None, 51).unwrap_err(),
        Error::PageTooLarge
    );
    assert_eq!(
        f.book.list_orders(Side::Bid, Some(77), 5).unwrap_err(),
        Error::OrderNotFound
    );
    assert_eq!(
        f.book.list_orders(Side::Ask, Some(placed[0]), 5).unwrap_err(),
        Error::WrongSide
    );
    f.cancel(MAKER, placed[2]).unwrap();
    assert_eq!(
        ids(f.book.list_orders(Side::Bid, None, 50).unwrap()),
        vec![placed[0], placed[1], placed[3], placed[4]]
    );
    assert_eq!(f.book.open_count(), 4);
}

#[test]
fn a_placed_order_stands_right_after_its_predecessor() {
    let mut f = fixture();
    let until = NOW + 1_000;
    let a = f.place(MAKER, Side::Ask, UNIT, PRICE, until, None).unwrap();
    let b = f
        .place(MAKER, Side::Ask, UNIT, PRICE + 20, until, Some(a))
        .unwrap();
    let c = f
        .place(MAKER, Side::Ask, UNIT, PRICE + 40, until, Some(b))
        .unwrap();
    let between = f
        .place(MAKER_TWO, Side::Ask, UNIT, PRICE + 10, until, Some(a))
        .unwrap();
    let equal = f
        .place(MAKER_TWO, Side::Ask, UNIT, PRICE + 20, until, Some(b))
        .unwrap();
    let first = f
        .place(MAKER_TWO, Side::Ask, UNIT, PRICE - 10, until, None)
        .unwrap();
    let ids: Vec<u64> = f
        .book
        .list_orders(Side::Ask, None, 50)
        .unwrap()
        .iter()
        .map(|order| order.id)
        .collect();
    assert_eq!(ids, vec![first, a, between, b, equal, c]);
    assert_eq!(
        f.place(MAKER, Side::Ask, UNIT, PRICE + 15, until, Some(b)),
        Err(Error::InvalidPredecessor)
    );
}

/// The book with only some of its orders loaded.
fn load(book: &Orderbook, ids: &[u64]) -> Orderbook {
    let mut part = book.clone();
    part.orders.retain(|id, _| ids.contains(id));
    part
}

#[test]
fn a_part_of_the_book_is_enough_for_a_call() {
    let mut f = fixture();
    let until = NOW + 1_000;
    let mut asks = Vec::new();
    for step in 0..5 {
        let last = asks.last().copied();
        let price = PRICE + 20 * step;
        asks.push(f.place(MAKER, Side::Ask, UNIT, price, until, last).unwrap());
    }
    let bid = f
        .place(MAKER_TWO, Side::Bid, UNIT, PRICE - 50, until, None)
        .unwrap();
    let env = host();

    let ids = [asks[1], asks[2], bid];
    let (mut whole, mut part) = (f.book.clone(), load(&f.book, &ids));
    let by = Some(asks[1]);
    let placed = whole.place_order(&env, NOW, MAKER, Side::Ask, UNIT, PRICE + 30, until, by);
    assert!(placed.is_ok());
    assert_eq!(
        part.place_order(&env, NOW, MAKER, Side::Ask, UNIT, PRICE + 30, until, by),
        placed
    );
    let new = placed.unwrap().event.id;
    let left = load(&whole, &[asks[1], asks[2], bid, new]);
    assert_eq!(part.orders, left.orders);
    assert_eq!(
        (part.ask_head, part.bid_head, part.open),
        (whole.ask_head, whole.bid_head, whole.open)
    );

    let ids = [asks[2], asks[3], asks[4]];
    let (mut whole, mut part) = (f.book.clone(), load(&f.book, &ids));
    let closed = whole.cancel_order(MAKER, asks[3]);
    assert!(closed.is_ok());
    assert_eq!(part.cancel_order(MAKER, asks[3]), closed);
    assert_eq!(part.orders, load(&whole, &ids).orders);

    for base in [UNIT / 2, UNIT] {
        let ids = [asks[0], asks[1]];
        let (mut whole, mut part) = (f.book.clone(), load(&f.book, &ids));
        let filled = whole
            .fill_best(&env, NOW, TAKER, Side::Ask, base, PRICE)
            .unwrap();
        let same = part
            .fill_best(&env, NOW, TAKER, Side::Ask, base, PRICE)
            .unwrap();
        assert_eq!(same.receipt, filled.receipt);
        assert_eq!(same.transfers, filled.transfers);
        assert_eq!(part.orders, load(&whole, &ids).orders);
        assert_eq!(part.ask_head, whole.ask_head);
    }

    let ids = [asks[0], asks[1], asks[2]];
    let (mut whole, mut part) = (f.book.clone(), load(&f.book, &ids));
    let pruned = whole.prune_expired(until, Side::Ask, 2).unwrap();
    assert_eq!(pruned.len(), 2);
    assert_eq!(part.prune_expired(until, Side::Ask, 2).unwrap(), pruned);
    assert_eq!(part.orders, load(&whole, &ids).orders);
}

#[test]
fn pruning_stops_at_the_first_live_order_and_at_its_limit() {
    let mut f = fixture();
    let a = f
        .place(MAKER, Side::Ask, UNIT, PRICE, NOW + 10, None)
        .unwrap();
    let b = f
        .place(MAKER, Side::Ask, UNIT, PRICE, NOW + 10, Some(a))
        .unwrap();
    let c = f
        .place(MAKER, Side::Ask, UNIT, PRICE, NOW + 50, Some(b))
        .unwrap();
    f.now = NOW + 20;
    assert_eq!(f.prune(Side::Ask, 1), Ok(1));
    assert_eq!(f.prune(Side::Ask, 50), Ok(1));
    assert_eq!(f.prune(Side::Ask, 50), Ok(0));
    assert_eq!(f.book.best_order(Side::Ask).unwrap().id, c);
    assert_eq!(f.prune(Side::Ask, 0), Err(Error::PageTooLarge));
    assert_eq!(f.prune(Side::Ask, 51), Err(Error::PageTooLarge));
}

#[test]
fn quotes_round_up_past_what_i128_can_multiply() {
    let env = host();
    assert_eq!(cumulative_quote(&env, 101, 923_456_789_012_345_678), Ok(94));
    assert_eq!(cumulative_quote(&env, 1, 1), Ok(1));
    assert_eq!(cumulative_quote(&env, 0, PRICE), Ok(0));
    assert_eq!(
        cumulative_quote(&env, i128::MAX / 2, 2 * WAD),
        Ok(i128::MAX / 2 * 2)
    );
    assert_eq!(
        cumulative_quote(&env, i128::MAX, 2 * WAD),
        Err(Error::MathOverflow)
    );
}

#[test]
fn asks_rank_upward_and_bids_downward() {
    assert!(ordered_before(Side::Ask, 1, 2, true));
    assert!(!ordered_before(Side::Ask, 2, 2, true));
    assert!(ordered_before(Side::Ask, 2, 2, false));
    assert!(!ordered_before(Side::Ask, 3, 2, false));
    assert!(ordered_before(Side::Bid, 2, 1, true));
    assert!(!ordered_before(Side::Bid, 2, 2, true));
    assert!(ordered_before(Side::Bid, 2, 2, false));
    assert!(!ordered_before(Side::Bid, 1, 2, false));
}

#[test]
fn every_fill_conserves_both_assets() {
    let mut f = fixture();
    let pt: i128 = f.pt.values().sum();
    let sy: i128 = f.sy.values().sum();
    f.place(MAKER, Side::Ask, 77, 990_000_000_000_000_001, NOW + 50, None)
        .unwrap();
    f.place(MAKER_TWO, Side::Bid, 53, 123_456_789_987_654_321, NOW + 50, None)
        .unwrap();
    for part in [10, 13, 30] {
        f.fill(TAKER, Side::Bid, part, 1).unwrap();
    }
    for part in [3, 30, 44] {
        f.fill(TAKER, Side::Ask, part, WAD).unwrap();
    }
    assert_eq!(f.book.open_count(), 0);
    assert_eq!(f.pt_of(ESCROW), 0);
    assert_eq!(f.sy_of(ESCROW), 0);
    assert_eq!(f.pt.values().sum::<i128>(), pt);
    assert_eq!(f.sy.values().sum::<i128>(), sy);
}

#[test]
fn orderbook_error_codes_are_stable() {
    let all = [
        Error::AlreadyInitialized,
        Error::NotInitialized,
        Error::InvalidMaturity,
        Error::InvalidAmount,
        Error::InvalidPrice,
        Error::InvalidExpiry,
        Error::InvalidFee,
        Error::NotAdmin,
        Error::OrderNotFound,
        Error::NotMaker,
        Error::WrongSide,
        Error::InvalidPredecessor,
        Error::OrderWouldCross,
        Error::NotBestOrder,
        Error::LimitPriceExceeded,
        Error::OrderExpired,
        Error::MarketMatured,
        Error::MathOverflow,
        Error::PageTooLarge,
    ];
    for (i, error) in all.iter().enumerate() {
        assert_eq!(error.code(), i as u32 + 1);
    }
}

#[test]
fn the_escrow_holds_exactly_what_the_open_orders_are_owed() {
    let mut f = fixture();
    let awkward = 923_456_789_012_345_678;
    f.escrow_matches();
    let bid = f
        .place(MAKER, Side::Bid, 101, awkward, NOW + 1_000, None)
        .unwrap();
    f.escrow_matches();
    f.place(MAKER_TWO, Side::Bid, 57, awkward - 7, NOW + 10, Some(bid))
        .unwrap();
    f.escrow_matches();
    let ask = f
        .place(MAKER, Side::Ask, 83, awkward + 1, NOW + 1_000, None)
        .unwrap();
    f.escrow_matches();
    f.fill(TAKER, Side::Bid, 33, awkward).unwrap();
    f.escrow_matches();
    f.fill(TAKER, Side::Ask, 40, awkward + 1).unwrap();
    f.escrow_matches();
    f.cancel(MAKER, ask).unwrap();
    f.escrow_matches();
    f.fill(TAKER, Side::Bid, 68, awkward).unwrap();
    f.escrow_matches();
    assert!(f.staked(Side::Bid) > 0);
    f.now = NOW + 10;
    assert_eq!(f.prune(Side::Bid, 10), Ok(1));
    f.escrow_matches();
    assert_eq!(f.staked(Side::Bid), 0);
}
